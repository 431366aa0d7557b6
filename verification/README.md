# field

A physics-agnostic substrate for mesh (Eulerian) methods, with its behaviour stated
in contracts and proved with Verus. It owns meshes, per-cell field storage, halo
communication and the transfer between particles and cells. It knows nothing of
fluxes, equations of state or boundary conditions.

## Layout

`src/` is the library. Every function in it is verified, but for the wrappers named
under Trust.

| modules | what they hold |
| --- | --- |
| `scalar`, `whole`, `sums`, `index` | numbers, sums and flat indices |
| `mesh`, `flux` | the mesh traits, and scattering fluxes over faces |
| `decomposition`, `grid`, `uniform`, `partition` | structured grids, split over ranks |
| `hierarchy` | ladders of grids, restriction and prolongation |
| `amr`, `forest`, `octree`, `regrid` | two-level and octree refinement, moving fields between meshes |
| `component`, `field_data`, `column`, `registry`, `derive` | what a cell holds, and stores of it |
| `halo`, `exchange` | plans of what crosses between ranks, and serving them |
| `transfer` | scatter and gather between particles and cells |
| `operator` | vectors over cells and matrix-free operators |
| `schedule` | the phases of a step |

The modules that end in `_laws`, with `grid_flux`, `octree_closure`, `octree_volumes`
and `transfer_exact`, state what holds across functions.

`app/` is ordinary Rust around the library: configuration files, plugins, message
passing, code generation and the C interface of the octree library.

## Numbers

The library is generic over `scalar::Scalar`, the arithmetic that a mesh needs. Every
contract names the operations in the order in which they are carried out, so it holds
for rounded arithmetic too. Laws that need exact arithmetic say so: they assume
`is_ring`, `is_ordered` or the one fact that they rest on. `whole::Whole` is a scalar
type for which both are proved.

## Trust

Two modules call code outside the library through small wrappers: `registry` compares
and prints the identifiers that the standard library gives to types, and `derive`
reads declarations with the parser `syn`. What is believed of each call stands beside
its wrapper, marked `external_body`. Beyond that, what is proved of a generic module
holds for scalar types, components and stores that keep the contracts of their traits.
