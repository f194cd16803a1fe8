# amar_engine

The data core of a small game engine, written in Verus with its behaviour
stated in contracts and proved:

- `world`, `archetype`, `column`, `bundle`: an archetype-based
  entity–component store. Entities with the same set of component types
  share a table; adding or removing a component moves the entity to the
  neighbouring table, whose identity is cached on both sides.
- `registry`, `label_index`: a registry of entities kept per value type,
  with labels and resources (at most one per type), and lists of types whose
  resources or entity maps are taken out together and put back.
- `registry_view`, `sys_runner`: the view of the registry handed to plugins
  (which may not insert or remove the engine's own resources) and the runner
  that lends a system what it asks for.
- `input`: keyboard and mouse-button state from frame to frame.
- `laws`: properties that relate several operations.

Component, resource and value types are named by integer keys that the
caller chooses; the stored values are of one type `V` chosen by the caller.

Hash maps are keyed by integers only. vstd's specification of `HashMap`
holds for key types that obey its key model, which vstd establishes for the
integer types (and `bool`) but not for `Vec`, `String` or tuples of them;
establishing it for those would take an assumption. So the index from a
sorted list of component types to its archetype, and the table from
(type, label) to entities, are lists of pairs searched in order. The map
forms were not tried.

`app/` holds the window and event loop (winit) and the cursor tracking
(floating point).
