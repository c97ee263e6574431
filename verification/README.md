# wslam

The decisions of a monocular visual SLAM front end, verified with Verus.

`src/` is the library. It holds no floating point: pixels, positions, poses and
covariances pass through as type parameters, a comparison of numbers enters as a
`bool`, and numbers that have to be ordered enter as integers that sort as they do
(`order::total_order_key`). What the library decides with them is stated in
contracts and proved.

- `raster`, `order`: grey images; sorting, medians and extremes over sort keys.
- `track`: image pyramids, corner selection, the walk of Lucas-Kanade flow through
  the levels, the consensus searches of pose and two-view estimation, the gates of
  triangulation, damped least squares, the layout of windowed bundle adjustment, the
  local map, the tracker with its frame-by-frame stages, and what holds of a tracker
  after a whole session of them, under a clock or without one.
- `fiducial`: adaptive thresholding, connected components, boundary clusters, quad
  fitting, and the codebook of the 36h11 tags.
- `scale`: the rulers for metric scale, what each remembers, and when it declines to
  answer.

The public proof functions whose names begin with `law_` state what holds of the
library as a whole.

`app/` is the floating-point side: the camera model, image sampling and the solvers,
each driven by the library. `tests/` runs the library on rendered images and synthetic
scenes, with the geometry that the tests need written out beside them.
