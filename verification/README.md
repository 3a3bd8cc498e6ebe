# kinema

Robot kinematic chains with verified structure.

`src/` is the verified library (Verus):

- `joint`, `node`: joints (type, position, limits, origin) and the nodes of a
  chain (parent index, joint, world pose).
- `kinematics`: `Chain`, a fixed-size array of nodes plus the node index of
  every movable joint. Reading and writing joint positions and limits through
  the movable slots, range checks, and the single forward pass that recomputes
  world poses in storage order, with the laws that hold of it (a write is read
  back, a pass in topological order settles every pose and is idempotent).
- `urdf`: building a chain from the shape of a URDF description (link names,
  joint kinds, parent and child links), either as a tree whose nodes hang from
  the latest node of their parent link or as a serial chain, with exact error
  conditions; and which link's visuals each node carries.
- `nalgebra_types`: the nalgebra types that nodes hold, declared opaque.

`app/` holds the floating-point side, which is not verified: local joint
transforms, the Jacobian, Jacobian and analytical inverse kinematics,
trapezoidal joint, cartesian and circular trajectories, URDF reading and
visuals.
