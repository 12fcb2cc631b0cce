# Sea router

Finds realistic maritime routes between any two ports on Earth, for display on maps. Routes
avoid land, pass canals (Suez, Panama, Corinth), and come out as smooth polylines.

The library in `src/` holds the logic, verified with Verus: each function states in its
contract what it returns, and laws that relate several functions stand beside them as public
proof functions. The program in `app/` reads and writes files, runs the HTTP server, and
brings in floating point.

## How it works

1. `land` classifies positions as land or water: a raster of 0.02 degrees, exact geometry for
   island-sized rings, and bounding boxes that tell open ocean at once. `waterways` and
   `corridors` paint navigable channels into the raster that the land polygons lack; `chart`
   puts both together, so that a cached raster holds the land alone and a change of the
   corridors takes effect at once.
2. `generate` and `quadtree` divide the globe into cells that are all water or all land, and
   merge open water again. `graph_builder` and `reconnect` wire the cells up, with canals and
   one node per port. `generation` runs all of this.
3. `graph` holds the routing graph in compressed rows; `router` searches it with A* and a
   penalty for coastal cells, and puts the true positions of the ports back on the ends. What
   the search keeps true is in `search`, what it does step by step in `course`.
   `thinning`, `los` and `pipeline` turn the path into the line that is drawn; `itinerary`
   joins the legs of a cruise.
4. `audit` reports how each port is attached to the graph; `channels` and `passage` search a
   way out to sea for ports that are not.

## Numbers

Angles are integers, 1,280,000,000 to the degree, so that coordinates with seven decimals and
all cell borders down to sixteen halvings of the globe are exact. Lengths are micrometres.
Great-circle distances and cosines are functions that the caller hands in; contracts speak of
what these functions answer.

## Outside crates

The spatial indexes are R-trees of `rstar`, and rings are rasterized on all cores with `rayon`.
What the library relies on of them is stated in `spatial` and in `raster`, in the contracts of
the few functions that call them.

## Program

    sea-router generate [depth] [data-dir]          build the routing graph
    sea-router serve [data-dir]                     start the HTTP server
    sea-router audit [data-dir] [--write-baseline]  report how ports are attached
    sea-router find-channels [data-dir]             search channels for stranded ports
