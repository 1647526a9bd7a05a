# tzconvert

A timezone quadtree compressor, verified with Verus. It takes quantized timezone
polygons, factors their borders into shared arcs, builds a cost-driven quadtree
over them, annotates the leaves for fast point lookups, and serializes the result
as JSON, as a full binary artifact, or as a small quadtree without geometry.

- `src/` is the library: geometry on integers, topology, the cost model, the
  quadtree, lookups, and the three formats with their readers. Every item of it
  is verified, with no trusted item.
- `app/` is the command line: GeoJSON input, options, files, and what is measured
  in floating point (degrees, distances, metres).
- `tests/` runs the library on concrete values.

## Modules

| module | role |
|---|---|
| `geom`, `segment`, `winding` | boxes, segments against boxes, winding numbers, areas |
| `lookup` | cells, quadrants, localized segment crossings |
| `quant` | the quantization domain and Ramer-Douglas-Peucker simplification |
| `arcs`, `borders`, `topology` | shared arcs and Visvalingam-Whyatt simplification |
| `artifact` | zones, timezones, the tree's nodes, classification |
| `cost`, `heap`, `subdivide` | the cost model and the greedy subdivision |
| `annotate`, `resolve` | leaf annotation, lookups, and the check against brute force |
| `domain`, `rebuild` | rings within the domain, rebuilding zones from arcs |
| `polycodec`, `packing` | packed delta streams and base64 |
| `pipeline` | the whole build, from polygons to a packed tree |
| `serialize` | the `Serializer` trait and the formats |

## What is proved

Beside the contract of every function, the laws that span several of them are
public proof functions, named `law_...` and `theorem_...`. Among them: the
localized containment test decides as the full one does; no edge lies in two
arcs, but for rings without junctions; a lookup in the tree
finds a smallest zone that holds the point; the packed, base64, varint, tree,
arc, zone and name codes all read back as what was written; a written binary file
reads back section by section; a lookup in the quadtree-only file answers as the
tree that was written; whatever the build yields can be written.
