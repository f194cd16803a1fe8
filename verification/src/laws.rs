//! Properties that relate several operations of the library, stated over the
//! same models that the operations' contracts use.
use vstd::prelude::*;
use crate::column::spec_put;
use crate::input::{spec_flush, spec_handle, spec_press, spec_release, ButtonsView};
use crate::label_index::{labels_fresh, labels_owned, unlabel_map, without, EntityId as RegistryId};
use crate::registry::{all_fetchable, lemma_fetchable_distinct, present_values, put_back_maps, put_back_res};
use crate::search::{is_insertion_point, strictly_sorted};
use crate::types::{EntityId, TypeKey};

verus! {

/// Adding a component of a new type to a live entity and then removing that
/// type gives back the added value and leaves every entity as it was
/// (what `World::add_component` followed by `World::remove_component` do to
/// the world's view).
pub proof fn law_add_then_remove_component<V>(
    m: Map<EntityId, Map<TypeKey, V>>,
    e: EntityId,
    t: TypeKey,
    v: V,
)
    requires
        m.contains_key(e),
        !m[e].contains_key(t),
    ensures
        ({
            let added = m.insert(e, m[e].insert(t, v));
            &&& added.contains_key(e)
            &&& added[e].contains_key(t)
            &&& added[e][t] == v
            &&& added.insert(e, added[e].remove(t)) == m
        }),
{
    let added = m.insert(e, m[e].insert(t, v));
    assert(added[e].remove(t) =~= m[e]);
    assert(added.insert(e, added[e].remove(t)) =~= m);
}

/// Spawning an entity and despawning it again leaves the world's entities as
/// they were, and the despawned entity is no longer live.
pub proof fn law_spawn_then_despawn<V>(m: Map<EntityId, Map<TypeKey, V>>, e: EntityId, c: Map<TypeKey, V>)
    requires
        !m.contains_key(e),
    ensures
        m.insert(e, c).remove(e) == m,
        !m.insert(e, c).remove(e).contains_key(e),
{
    assert(m.insert(e, c).remove(e) =~= m);
}

/// Adding a component type to an archetype's sorted types and then removing
/// it again, wherever it stands, gives back the starting types (the
/// archetype reached by `World::add_to_archetype` and then
/// `World::remove_from_archetype` with the same type has the types of the
/// start).
pub proof fn law_add_then_remove_type(s: Seq<TypeKey>, t: TypeKey, p: int, q: int)
    requires
        strictly_sorted(s),
        is_insertion_point(s, t, p),
        0 <= q < s.len() + 1,
        s.insert(p, t)[q] == t,
    ensures
        q == p,
        s.insert(p, t).remove(q) == s,
{
    let s2 = s.insert(p, t);
    if q < p {
        assert(s[q] < t);
    } else if q > p {
        assert(s2[q] == s[q - 1]);
        assert(t < s[q - 1]);
    }
    assert(s2.remove(q) =~= s);
}

/// A resource inserted into a world is read back until it is replaced, and
/// a second insertion of the same type replaces the first
/// (`World::insert_resource`).
pub proof fn law_world_resource_overwrites<V>(m: Map<TypeKey, V>, t: TypeKey, a: V, b: V)
    ensures
        m.insert(t, a).contains_key(t),
        m.insert(t, a)[t] == a,
        m.insert(t, a).insert(t, b) == m.insert(t, b),
{
    assert(m.insert(t, a).insert(t, b) =~= m.insert(t, b));
}

/// The registry's insertion keeps what is present: of two insertions of the
/// same resource type, the first wins (`ResourceRegistry::insert_res`).
pub proof fn law_registry_first_insert_wins<V>(m: Map<TypeKey, V>, t: TypeKey, a: V, b: V)
    requires
        !m.contains_key(t),
    ensures
        ({
            let once = if m.contains_key(t) { m } else { m.insert(t, a) };
            let twice = if once.contains_key(t) { once } else { once.insert(t, b) };
            twice == m.insert(t, a) && twice[t] == a
        }),
{
}

/// The keys of `keys[n..]`, as a set.
spec fn suffix_set(keys: Seq<TypeKey>, n: int) -> Set<TypeKey> {
    keys.subrange(n, keys.len() as int).to_set()
}

proof fn lemma_suffix_set_step(keys: Seq<TypeKey>, n: int)
    requires
        0 < n <= keys.len(),
        forall|i: int, j: int| 0 <= i < j < keys.len() ==> keys[i] != keys[j],
    ensures
        suffix_set(keys, n - 1) == suffix_set(keys, n).insert(keys[n - 1]),
        !suffix_set(keys, n).contains(keys[n - 1]),
{
    let a = keys.subrange(n - 1, keys.len() as int);
    let b = keys.subrange(n, keys.len() as int);
    assert(a =~= seq![keys[n - 1]] + b);
    assert forall|x: TypeKey| a.to_set().contains(x) <==> b.to_set().insert(keys[n - 1]).contains(x) by {
        if a.contains(x) {
            let w = choose|w: int| 0 <= w < a.len() && a[w] == x;
            if w > 0 {
                assert(b[w - 1] == x);
            }
        }
        if b.contains(x) {
            let w = choose|w: int| 0 <= w < b.len() && b[w] == x;
            assert(a[w + 1] == x);
        }
        if x == keys[n - 1] {
            assert(a[0] == x);
        }
    }
    assert(a.to_set() =~= b.to_set().insert(keys[n - 1]));
    if b.contains(keys[n - 1]) {
        let w = choose|w: int| 0 <= w < b.len() && b[w] == keys[n - 1];
        assert(keys[n + w] == keys[n - 1]);
    }
}

proof fn lemma_put_back_res_prefix<V>(m: Map<TypeKey, V>, keys: Seq<TypeKey>, vals: Seq<V>, n: nat)
    requires
        n <= keys.len(),
        forall|i: int, j: int| 0 <= i < j < keys.len() ==> keys[i] != keys[j],
        forall|j: int| 0 <= j < keys.len() ==> m.contains_key(keys[j]),
        vals.len() == keys.len(),
        forall|j: int| 0 <= j < vals.len() ==> #[trigger] vals[j] == m[keys[j]],
    ensures
        put_back_res(m.remove_keys(suffix_set(keys, 0)), keys, vals, n) == m.remove_keys(suffix_set(keys, n as int)),
    decreases n,
{
    if n > 0 {
        lemma_put_back_res_prefix(m, keys, vals, (n - 1) as nat);
        lemma_suffix_set_step(keys, n as int);
        let prev = m.remove_keys(suffix_set(keys, n - 1));
        assert(!prev.contains_key(keys[n - 1]));
        assert(prev.insert(keys[n - 1], vals[n - 1]) =~= m.remove_keys(suffix_set(keys, n as int)));
    }
}

proof fn lemma_put_back_maps_prefix<V>(
    m: Map<TypeKey, Map<u64, V>>,
    keys: Seq<TypeKey>,
    maps: Seq<Map<u64, V>>,
    n: nat,
)
    requires
        n <= keys.len(),
        forall|i: int, j: int| 0 <= i < j < keys.len() ==> keys[i] != keys[j],
        forall|j: int| 0 <= j < keys.len() ==> m.contains_key(keys[j]),
        maps.len() == keys.len(),
        forall|j: int| 0 <= j < maps.len() ==> #[trigger] maps[j] == m[keys[j]],
    ensures
        put_back_maps(m.remove_keys(suffix_set(keys, 0)), keys, maps, n) == m.remove_keys(suffix_set(keys, n as int)),
    decreases n,
{
    if n > 0 {
        lemma_put_back_maps_prefix(m, keys, maps, (n - 1) as nat);
        lemma_suffix_set_step(keys, n as int);
        let prev = m.remove_keys(suffix_set(keys, n - 1));
        assert(prev.insert(keys[n - 1], maps[n - 1]) =~= m.remove_keys(suffix_set(keys, n as int)));
    }
}

/// Taking out the resources of a list of types (when all can be taken) and
/// putting the same values back restores the resources exactly
/// (`FetchRes::take` followed by `FetchRes::put_back`).
pub proof fn law_take_then_put_back_resources<V>(m: Map<TypeKey, V>, keys: Seq<TypeKey>, vals: Seq<V>)
    requires
        all_fetchable(m, keys),
        vals.len() == keys.len(),
        forall|j: int| 0 <= j < vals.len() ==> #[trigger] vals[j] == m[keys[j]],
    ensures
        put_back_res(m.remove_keys(keys.to_set()), keys, vals, keys.len()) == m,
{
    lemma_fetchable_distinct(m, keys);
    assert(keys.subrange(0, keys.len() as int) =~= keys);
    lemma_put_back_res_prefix(m, keys, vals, keys.len());
    assert(suffix_set(keys, keys.len() as int) =~= Set::<TypeKey>::empty());
    assert(m.remove_keys(Set::<TypeKey>::empty()) =~= m);
}

/// Taking out the entity maps of a list of value types (when all can be
/// taken) and putting the same maps back restores the entity maps exactly
/// (`FetchEntity::take` followed by `FetchEntity::put_back`).
pub proof fn law_take_then_put_back_maps<V>(
    m: Map<TypeKey, Map<u64, V>>,
    keys: Seq<TypeKey>,
    maps: Seq<Map<u64, V>>,
)
    requires
        all_fetchable(m, keys),
        maps.len() == keys.len(),
        forall|j: int| 0 <= j < maps.len() ==> #[trigger] maps[j] == m[keys[j]],
    ensures
        put_back_maps(m.remove_keys(keys.to_set()), keys, maps, keys.len()) == m,
{
    lemma_fetchable_distinct(m, keys);
    assert(keys.subrange(0, keys.len() as int) =~= keys);
    lemma_put_back_maps_prefix(m, keys, maps, keys.len());
    assert(suffix_set(keys, keys.len() as int) =~= Set::<TypeKey>::empty());
    assert(m.remove_keys(Set::<TypeKey>::empty()) =~= m);
}

/// A key the operating system reports again and again while held produces
/// one "just pressed" event only: a second press of a held key changes
/// nothing (`InputHandler::handle_key`).
pub proof fn law_repeated_press_fires_once(s: ButtonsView, b: u32)
    ensures
        spec_press(spec_press(s, b), b) == spec_press(s, b),
        spec_press(s, b).held.contains(b),
        !s.held.contains(b) ==> spec_press(s, b).pressed == s.pressed.push(b),
{
}

/// A pressed key stays held across frames until its release is recorded;
/// the end of a frame forgets only that frame's events
/// (`InputHandler::flush`).
pub proof fn law_held_until_released(s: ButtonsView, b: u32)
    ensures
        spec_flush(spec_press(s, b)).held.contains(b),
        spec_flush(s).pressed.len() == 0,
        spec_flush(s).released.len() == 0,
        !spec_release(spec_flush(spec_press(s, b)), b).held.contains(b),
        spec_release(s, b).released.contains(b),
{
    assert(spec_release(s, b).released[s.released.len() as int] == b);
}

proof fn lemma_without(s: Seq<RegistryId>, id: RegistryId)
    ensures
        forall|x: RegistryId| #[trigger] without(s, id).contains(x) <==> s.contains(x) && x != id,
        (forall|i: int, j: int| 0 <= i < j < s.len() ==> s[i] != s[j]) ==> forall|i: int, j: int|
            0 <= i < j < without(s, id).len() ==> without(s, id)[i] != without(s, id)[j],
    decreases s.len(),
{
    if s.len() == 0 {
        assert(without(s, id) =~= Seq::<RegistryId>::empty());
    } else {
        let t = s.drop_last();
        let last = s.last();
        let r = without(t, id);
        lemma_without(t, id);
        let distinct_s = forall|i: int, j: int| 0 <= i < j < s.len() ==> s[i] != s[j];
        if distinct_s {
            assert forall|i: int, j: int| 0 <= i < j < t.len() implies t[i] != t[j] by {
                assert(s[i] != s[j]);
            }
            assert(!t.contains(last)) by {
                if t.contains(last) {
                    let w = choose|w: int| 0 <= w < t.len() && t[w] == last;
                    assert(s[w] == s[s.len() - 1]);
                }
            }
        }
        assert forall|x: RegistryId| s.contains(x) <==> t.contains(x) || x == last by {
            if s.contains(x) {
                let w = choose|w: int| 0 <= w < s.len() && s[w] == x;
                if w < s.len() - 1 {
                    assert(t[w] == x);
                }
            }
            if t.contains(x) {
                let w = choose|w: int| 0 <= w < t.len() && t[w] == x;
                assert(s[w] == x);
            }
            if x == last {
                assert(s[s.len() - 1] == x);
            }
        }
        if last == id {
            assert(without(s, id) == r);
        } else {
            let rp = r.push(last);
            assert(without(s, id) == rp);
            assert forall|x: RegistryId| rp.contains(x) <==> r.contains(x) || x == last by {
                if rp.contains(x) {
                    let w = choose|w: int| 0 <= w < rp.len() && rp[w] == x;
                    if w < r.len() {
                        assert(r[w] == x);
                    }
                }
                if r.contains(x) {
                    let w = choose|w: int| 0 <= w < r.len() && r[w] == x;
                    assert(rp[w] == x);
                }
                if x == last {
                    assert(rp[r.len() as int] == x);
                }
            }
            if distinct_s {
                assert forall|i: int, j: int| 0 <= i < j < rp.len() implies rp[i] != rp[j] by {
                    if j == r.len() {
                        assert(r.contains(r[i]));
                    } else {
                        assert(rp[i] == r[i] && rp[j] == r[j]);
                    }
                }
            }
        }
    }
}

/// Spawning with a label keeps every label list free of repeated entities:
/// the new entity, which takes the next identifier, is in no list yet
/// (`ResourceRegistry::spawn`). So a label never yields an entity twice.
pub proof fn law_spawn_keeps_labels_fresh(
    lm: Map<(TypeKey, Seq<char>), Seq<RegistryId>>,
    next: u64,
    k: (TypeKey, Seq<char>),
)
    requires
        labels_fresh(lm, next),
        next < u64::MAX,
    ensures
        labels_fresh(
            lm.insert(
                k,
                (if lm.contains_key(k) { lm[k] } else { Seq::<RegistryId>::empty() }).push(RegistryId(next)),
            ),
            (next + 1) as u64,
        ),
{
    let lm2 = lm.insert(k, (if lm.contains_key(k) { lm[k] } else { Seq::<RegistryId>::empty() }).push(RegistryId(next)));
    assert forall|k2: (TypeKey, Seq<char>)| #[trigger] lm2.contains_key(k2) implies {
        &&& forall|i: int, j: int| 0 <= i < j < lm2[k2].len() ==> lm2[k2][i] != lm2[k2][j]
        &&& forall|i: int| 0 <= i < lm2[k2].len() ==> (#[trigger] lm2[k2][i]).0 < next + 1
    } by {
        if k2 == k && lm.contains_key(k) {
            assert forall|i: int, j: int| 0 <= i < j < lm2[k2].len() implies lm2[k2][i] != lm2[k2][j] by {
                if j == lm[k].len() {
                    assert(lm[k][i].0 < next);
                }
            }
        }
    }
}

/// Taking an entity off its label keeps every label list free of repeated
/// entities (`ResourceRegistry::despawn`).
pub proof fn law_unlabel_keeps_labels_fresh(
    lm: Map<(TypeKey, Seq<char>), Seq<RegistryId>>,
    next: u64,
    k: (TypeKey, Seq<char>),
    id: RegistryId,
)
    requires
        labels_fresh(lm, next),
        lm.contains_key(k),
    ensures
        without(lm[k], id).len() == 0 ==> labels_fresh(lm.remove(k), next),
        without(lm[k], id).len() > 0 ==> labels_fresh(lm.insert(k, without(lm[k], id)), next),
{
    lemma_without(lm[k], id);
    let rest = without(lm[k], id);
    assert forall|i: int| 0 <= i < rest.len() implies (#[trigger] rest[i]).0 < next by {
        assert(rest.contains(rest[i]));
        assert(lm[k].contains(rest[i]));
        let w = choose|w: int| 0 <= w < lm[k].len() && lm[k][w] == rest[i];
        assert(lm[k][w].0 < next);
    }
    if rest.len() > 0 {
        let lm2 = lm.insert(k, rest);
        assert forall|k2: (TypeKey, Seq<char>)| #[trigger] lm2.contains_key(k2) implies {
            &&& forall|i: int, j: int| 0 <= i < j < lm2[k2].len() ==> lm2[k2][i] != lm2[k2][j]
            &&& forall|i: int| 0 <= i < lm2[k2].len() ==> (#[trigger] lm2[k2][i]).0 < next
        } by {
        }
    }
}

/// Spawning with a label keeps every listed entity under the label recorded
/// for it: the new entity, whose identifier is listed nowhere yet, gets its
/// label recorded (`ResourceRegistry::spawn`).
pub proof fn law_spawn_keeps_labels_owned(
    lm: Map<(TypeKey, Seq<char>), Seq<RegistryId>>,
    om: Map<u64, (TypeKey, Seq<char>)>,
    next: u64,
    k: (TypeKey, Seq<char>),
)
    requires
        labels_fresh(lm, next),
        labels_owned(lm, om),
    ensures
        labels_owned(
            lm.insert(
                k,
                (if lm.contains_key(k) { lm[k] } else { Seq::<RegistryId>::empty() }).push(RegistryId(next)),
            ),
            om.insert(next, k),
        ),
{
    let lm2 = lm.insert(k, (if lm.contains_key(k) { lm[k] } else { Seq::<RegistryId>::empty() }).push(RegistryId(next)));
    let om2 = om.insert(next, k);
    assert forall|k2: (TypeKey, Seq<char>), i: int| #![trigger lm2[k2][i]] lm2.contains_key(k2) && 0 <= i < lm2[k2].len()
        implies om2.contains_key(lm2[k2][i].0) && om2[lm2[k2][i].0] == k2 by {
        if !(k2 == k && i == lm2[k2].len() - 1) {
            assert(lm2[k2][i] == lm[k2][i]);
            assert(lm[k2][i].0 < next);
        }
    }
}

/// Taking an entity off its recorded label leaves it listed under no label
/// at all, and keeps every other listed entity under its recorded label
/// (`ResourceRegistry::despawn`).
pub proof fn law_unlabel_keeps_labels_owned(
    lm: Map<(TypeKey, Seq<char>), Seq<RegistryId>>,
    om: Map<u64, (TypeKey, Seq<char>)>,
    id: RegistryId,
)
    requires
        labels_owned(lm, om),
    ensures
        labels_owned(unlabel_map(lm, om, id), om.remove(id.0)),
        forall|k: (TypeKey, Seq<char>)| #[trigger] unlabel_map(lm, om, id).contains_key(k)
            ==> !unlabel_map(lm, om, id)[k].contains(id),
{
    let lm2 = unlabel_map(lm, om, id);
    let om2 = om.remove(id.0);
    if om.contains_key(id.0) && lm.contains_key(om[id.0]) {
        let k = om[id.0];
        lemma_without(lm[k], id);
    }
    assert forall|k2: (TypeKey, Seq<char>)| #[trigger] lm2.contains_key(k2) implies !lm2[k2].contains(id) by {
        if lm2[k2].contains(id) {
            let w = choose|w: int| 0 <= w < lm2[k2].len() && lm2[k2][w] == id;
            if om.contains_key(id.0) && lm.contains_key(om[id.0]) && k2 == om[id.0] {
                lemma_without(lm[k2], id);
                assert(!without(lm[k2], id).contains(id));
            } else {
                assert(lm2[k2] == lm[k2]);
                assert(lm[k2][w] == id);
            }
        }
    }
    assert forall|k2: (TypeKey, Seq<char>), i: int| #![trigger lm2[k2][i]] lm2.contains_key(k2) && 0 <= i < lm2[k2].len()
        implies om2.contains_key(lm2[k2][i].0) && om2[lm2[k2][i].0] == k2 by {
        let x = lm2[k2][i];
        assert(lm2[k2].contains(x));
        assert(x != id);
        if om.contains_key(id.0) && lm.contains_key(om[id.0]) && k2 == om[id.0] {
            lemma_without(lm[k2], id);
            assert(without(lm[k2], id).contains(x));
            assert(lm[k2].contains(x));
            let w = choose|w: int| 0 <= w < lm[k2].len() && lm[k2][w] == x;
            assert(om[lm[k2][w].0] == k2);
        } else {
            assert(lm2[k2] == lm[k2]);
            assert(om[lm[k2][i].0] == k2);
        }
        assert(x.0 != id.0);
    }
}

/// The values found for a label list, when every listed entity is in the
/// store: one value per listed entity, the `i`-th being the value of the
/// `i`-th entity (`ResourceRegistry::get_by_label`).
pub proof fn law_label_values_follow_the_list<V>(ids: Seq<RegistryId>, m: Map<u64, V>)
    requires
        forall|i: int| 0 <= i < ids.len() ==> m.contains_key(#[trigger] ids[i].0),
    ensures
        present_values(ids, m).len() == ids.len(),
        forall|i: int| 0 <= i < ids.len() ==> #[trigger] present_values(ids, m)[i] == m[ids[i].0],
    decreases ids.len(),
{
    if ids.len() > 0 {
        let t = ids.drop_last();
        assert forall|i: int| 0 <= i < t.len() implies m.contains_key(#[trigger] t[i].0) by {
            assert(t[i] == ids[i]);
        }
        law_label_values_follow_the_list(t, m);
        assert(m.contains_key(ids[ids.len() - 1].0));
        assert forall|i: int| 0 <= i < ids.len() implies #[trigger] present_values(ids, m)[i] == m[ids[i].0] by {
            if i < ids.len() - 1 {
                assert(present_values(t, m)[i] == m[t[i].0]);
            }
        }
    }
}

/// The values found for a label list are those of the listed entities that
/// are in the store, in list order: a list with one more entity at its end
/// gives one more value at the end when that entity is in the store, and
/// the same values otherwise.
pub proof fn law_label_values_extend<V>(ids: Seq<RegistryId>, m: Map<u64, V>, x: RegistryId)
    ensures
        m.contains_key(x.0) ==> present_values(ids.push(x), m) == present_values(ids, m).push(m[x.0]),
        !m.contains_key(x.0) ==> present_values(ids.push(x), m) == present_values(ids, m),
        present_values(Seq::<RegistryId>::empty(), m) == Seq::<V>::empty(),
{
    assert(ids.push(x).drop_last() =~= ids);
    assert(ids.push(x).last() == x);
}

/// Taking an entity off a label list keeps the other entities, in the order
/// they were labelled: the result is the list filtered on being another
/// entity (`ResourceRegistry::despawn`, `LabelIndex::remove`).
pub proof fn law_unlabel_keeps_order(s: Seq<RegistryId>, id: RegistryId)
    ensures
        without(s, id) == s.filter(|x: RegistryId| x != id),
    decreases s.len(),
{
    let p = |x: RegistryId| x != id;
    if s.len() == 0 {
        reveal(Seq::filter);
        assert(s.filter(p) =~= Seq::<RegistryId>::empty());
    } else {
        let t = s.drop_last();
        law_unlabel_keeps_order(t, id);
        t.lemma_filter_push(s.last(), p);
        assert(t.push(s.last()) =~= s);
    }
}

/// Taking an entity off a list with one more entry at its end: that entry is
/// kept, at the end, unless it is the entity taken off.
pub proof fn law_unlabel_extend(s: Seq<RegistryId>, id: RegistryId, x: RegistryId)
    ensures
        x != id ==> without(s.push(x), id) == without(s, id).push(x),
        without(s.push(id), id) == without(s, id),
        without(Seq::<RegistryId>::empty(), id) == Seq::<RegistryId>::empty(),
{
    assert(s.push(x).drop_last() =~= s);
    assert(s.push(id).drop_last() =~= s);
}

/// A key press adds that key to the held keys and changes no other key; it
/// is recorded as pressed this frame exactly when the key was not held; the
/// releases of the frame are untouched (`InputHandler::handle_key`,
/// `handle_mouse_key`).
pub proof fn law_press_touches_one_key(s: ButtonsView, c: u32)
    ensures
        forall|k: u32| #[trigger] spec_press(s, c).held.contains(k) <==> (s.held.contains(k) || k == c),
        spec_press(s, c).pressed == (if s.held.contains(c) { s.pressed } else { s.pressed.push(c) }),
        spec_press(s, c).released == s.released,
{
}

/// A key release takes that key out of the held keys and changes no other
/// key; it is recorded as released this frame; the presses of the frame are
/// untouched (`InputHandler::handle_key`, `handle_mouse_key`).
pub proof fn law_release_touches_one_key(s: ButtonsView, c: u32)
    ensures
        forall|k: u32| #[trigger] spec_release(s, c).held.contains(k) <==> (s.held.contains(k) && k != c),
        spec_release(s, c).pressed == s.pressed,
        spec_release(s, c).released == s.released.push(c),
{
}

/// Ending a frame changes no key's held state and forgets every event of the
/// frame (`InputHandler::flush`).
pub proof fn law_flush_keeps_held(s: ButtonsView)
    ensures
        forall|k: u32| #[trigger] spec_flush(s).held.contains(k) <==> s.held.contains(k),
        spec_flush(s).pressed.len() == 0,
        spec_flush(s).released.len() == 0,
{
}

/// An event on a key holds it down when it is a press and lets it up when
/// it is a release (`InputHandler::handle_key`).
pub proof fn law_event_sets_the_key(s: ButtonsView, c: u32)
    ensures
        spec_handle(s, c, true).held.contains(c),
        !spec_handle(s, c, false).held.contains(c),
        spec_handle(s, c, false).released.last() == c,
        !s.held.contains(c) ==> spec_handle(s, c, true).pressed.last() == c,
{
}

/// A list of types can be taken out together exactly when every type is
/// present and none comes twice (`FetchRes::take`, `FetchEntity::take`).
pub proof fn law_fetchable_means_present_and_distinct<X>(m: Map<TypeKey, X>, keys: Seq<TypeKey>)
    ensures
        all_fetchable(m, keys) <==> (forall|j: int| 0 <= j < keys.len() ==> m.contains_key(#[trigger] keys[j]))
            && (forall|i: int, j: int| 0 <= i < j < keys.len() ==> keys[i] != keys[j]),
{
    if all_fetchable(m, keys) {
        lemma_fetchable_distinct(m, keys);
    }
    if (forall|j: int| 0 <= j < keys.len() ==> m.contains_key(#[trigger] keys[j]))
        && (forall|i: int, j: int| 0 <= i < j < keys.len() ==> keys[i] != keys[j]) {
        assert forall|j: int| 0 <= j < keys.len() implies !#[trigger] crate::registry::missing_at(m, keys, j) by {
            assert(m.contains_key(keys[j]));
            if keys.subrange(0, j).contains(keys[j]) {
                let w = choose|w: int| 0 <= w < j && keys.subrange(0, j)[w] == keys[j];
                assert(keys[w] == keys[j]);
            }
        }
    }
}

/// Putting resources back, with types that do not repeat: a type already
/// present keeps its value, an absent one gets the value put back, and no
/// other type changes (`FetchRes::put_back`).
pub proof fn law_put_back_resources_values<V>(m: Map<TypeKey, V>, keys: Seq<TypeKey>, vals: Seq<V>, n: nat)
    requires
        n <= keys.len(),
        n <= vals.len(),
        forall|i: int, j: int| 0 <= i < j < keys.len() ==> keys[i] != keys[j],
    ensures
        forall|j: int| 0 <= j < n ==> #[trigger] put_back_res(m, keys, vals, n).contains_key(keys[j])
            && put_back_res(m, keys, vals, n)[keys[j]] == (if m.contains_key(keys[j]) { m[keys[j]] } else { vals[j] }),
        forall|t: TypeKey| !keys.subrange(0, n as int).contains(t) ==> (#[trigger] put_back_res(m, keys, vals, n).contains_key(t)
            <==> m.contains_key(t)) && (m.contains_key(t) ==> put_back_res(m, keys, vals, n)[t] == m[t]),
    decreases n,
{
    if n > 0 {
        let k = (n - 1) as nat;
        law_put_back_resources_values(m, keys, vals, k);
        let prev = put_back_res(m, keys, vals, k);
        let cur = put_back_res(m, keys, vals, n);
        assert(!keys.subrange(0, k as int).contains(keys[k as int])) by {
            if keys.subrange(0, k as int).contains(keys[k as int]) {
                let w = choose|w: int| 0 <= w < k && keys.subrange(0, k as int)[w] == keys[k as int];
                assert(keys[w] == keys[k as int]);
            }
        }
        assert forall|j: int| 0 <= j < n implies #[trigger] cur.contains_key(keys[j])
            && cur[keys[j]] == (if m.contains_key(keys[j]) { m[keys[j]] } else { vals[j] }) by {
            if j < k {
                assert(prev.contains_key(keys[j]));
                assert(keys[j] != keys[k as int]);
            }
        }
        assert forall|t: TypeKey| !keys.subrange(0, n as int).contains(t) implies (#[trigger] cur.contains_key(t)
            <==> m.contains_key(t)) && (m.contains_key(t) ==> cur[t] == m[t]) by {
            assert(keys.subrange(0, n as int)[k as int] == keys[k as int]);
            if keys.subrange(0, k as int).contains(t) {
                let w = choose|w: int| 0 <= w < k && keys.subrange(0, k as int)[w] == t;
                assert(keys.subrange(0, n as int)[w] == t);
            }
        }
    }
}

/// Putting entity maps back, with types that do not repeat: each type gets
/// the map put back for it, and no other type changes
/// (`FetchEntity::put_back`).
pub proof fn law_put_back_maps_values<V>(m: Map<TypeKey, Map<u64, V>>, keys: Seq<TypeKey>, maps: Seq<Map<u64, V>>, n: nat)
    requires
        n <= keys.len(),
        n <= maps.len(),
        forall|i: int, j: int| 0 <= i < j < keys.len() ==> keys[i] != keys[j],
    ensures
        forall|j: int| 0 <= j < n ==> #[trigger] put_back_maps(m, keys, maps, n).contains_key(keys[j])
            && put_back_maps(m, keys, maps, n)[keys[j]] == maps[j],
        forall|t: TypeKey| !keys.subrange(0, n as int).contains(t) ==> (#[trigger] put_back_maps(m, keys, maps, n).contains_key(t)
            <==> m.contains_key(t)) && (m.contains_key(t) ==> put_back_maps(m, keys, maps, n)[t] == m[t]),
    decreases n,
{
    if n > 0 {
        let k = (n - 1) as nat;
        law_put_back_maps_values(m, keys, maps, k);
        let prev = put_back_maps(m, keys, maps, k);
        let cur = put_back_maps(m, keys, maps, n);
        assert forall|j: int| 0 <= j < n implies #[trigger] cur.contains_key(keys[j]) && cur[keys[j]] == maps[j] by {
            if j < k {
                assert(prev.contains_key(keys[j]));
                assert(keys[j] != keys[k as int]);
            }
        }
        assert forall|t: TypeKey| !keys.subrange(0, n as int).contains(t) implies (#[trigger] cur.contains_key(t)
            <==> m.contains_key(t)) && (m.contains_key(t) ==> cur[t] == m[t]) by {
            assert(keys.subrange(0, n as int)[k as int] == keys[k as int]);
            if keys.subrange(0, k as int).contains(t) {
                let w = choose|w: int| 0 <= w < k && keys.subrange(0, k as int)[w] == t;
                assert(keys.subrange(0, n as int)[w] == t);
            }
        }
    }
}

/// Taking an entity off its recorded label changes that label's list only:
/// the entity leaves it, the others stay in order, and the label goes away
/// once its list is empty; every other label keeps its list
/// (`ResourceRegistry::despawn`).
pub proof fn law_unlabel_touches_one_label(
    lm: Map<(TypeKey, Seq<char>), Seq<RegistryId>>,
    om: Map<u64, (TypeKey, Seq<char>)>,
    id: RegistryId,
    k2: (TypeKey, Seq<char>),
)
    ensures
        !(om.contains_key(id.0) && om[id.0] == k2) ==> (unlabel_map(lm, om, id).contains_key(k2) <==> lm.contains_key(k2))
            && (lm.contains_key(k2) ==> unlabel_map(lm, om, id)[k2] == lm[k2]),
        om.contains_key(id.0) && om[id.0] == k2 && lm.contains_key(k2) ==> (unlabel_map(lm, om, id).contains_key(k2)
            <==> lm[k2].filter(|x: RegistryId| x != id).len() > 0)
            && (unlabel_map(lm, om, id).contains_key(k2) ==> unlabel_map(lm, om, id)[k2] == lm[k2].filter(
                |x: RegistryId| x != id,
            )),
{
    if lm.contains_key(k2) {
        law_unlabel_keeps_order(lm[k2], id);
    }
}

/// Writing a value into a column puts it at that row (appending a row when
/// the row is the next one) and changes no other row (`Column::insert`).
pub proof fn law_column_write<V>(s: Seq<Option<V>>, row: int, v: V)
    requires
        0 <= row <= s.len(),
    ensures
        spec_put(s, row, v).len() == (if row < s.len() { s.len() } else { s.len() + 1 }),
        spec_put(s, row, v)[row] == Some(v),
        forall|r: int| 0 <= r < s.len() && r != row ==> #[trigger] spec_put(s, row, v)[r] == s[r],
{
}

} // verus!
