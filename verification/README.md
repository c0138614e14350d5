# model_imagery_server

A tile server for oblique photography models: `GET /getMap` answers with a PNG
picture of a rectangle, merged from the tiles of one or more imagery layers
(laid over one another, cut to the rectangle).

- `src/` is the library, verified with Verus: the layer URL list and URL
  templates (`url_list`, `url_template`, `text`), the tile grid (`tile`), the
  images and their merging (`raster`), the request decisions (`entity`) and
  the cache entries of fetched tiles (`fetch`).
- `app/` is the server around it: configuration file, HTTP, fetching tiles
  over the network, and the geodetic geometry, which is floating point.
- `tests/` runs the library on concrete values.
