# n_body

A simulation of two colliding star clusters. Each frame the stars are
divided into 64 sectors by halving them six times along the x, z and y axes
in turn; stars attract the stars of their own sector one by one and the other
sectors as point masses.

- `src/` is verified with Verus: the division into sectors (`sectors`, with the
  stable merge sort it rests on in `stable_sort`), the integer ordering keys of
  coordinates (`order_key`), the grouping of sectors for the worker threads
  (`groups`) and the command-line check (`args`).
- `app/` is the program around it: floating-point physics, random initial
  positions, threads and drawing.

Usage: `n_body #_of_stars_CL1 #_of_stars_CL2 radiusCL1 radiusCL2 x y z vx vy vz`
