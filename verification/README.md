# Skeletal animation editor

An editor for authoring skeletal animation clips: a bone hierarchy tree, a
3D viewport, bone transform properties and a keyframe timeline.

## Layout

- `src/` — the verified model, proved with Verus.
  - `skeleton.rs`: bones, lookup by id, roots, children, the depth-first
    order of the hierarchy and the order in which every bone's world matrix
    is evaluated.
  - `order_laws.rs`: with distinct ids each bone is evaluated once, parents
    first; a world matrix starts from the identity exactly when the bone's
    parent is missing; a selected bone's row shows in the hierarchy.
  - `animation.rs`: keyframes in whole microseconds, frame rates in
    thousandths of a frame per second, track sampling (which
    keyframes a pose blends, and by how much), the local pose source of a
    bone and the plan for evaluating world matrices.
  - `editor.rs`: the editor model — bone and keyframe selection, keyframe
    insertion and deletion, the properties panel's transform, playback and
    its range, the hierarchy rows and the timeline rows.
  - `keyframe_laws.rs`: what insertion and deletion promise across calls.
  - `viewport_controls.rs`: the viewport's drag gestures and fly keys.
  - `glyphs.rs`: the timeline ruler's bitmap digits.
- `tests/` — tests of the library on concrete values.
- `app/` — what stays outside the proofs: floating-point math and pose
  blending, the sample rig and run cycle, the JSON asset files, the
  properties panel's text fields, the viewport camera and the editor
  session that drives the model.

Transforms are a type parameter of the model: it decides which transform
is shown, keyed or blended, and `app/` supplies the floating-point
transform type and does the arithmetic.
