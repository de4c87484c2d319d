//! The shape registry: an ordered collection of drawables with an aggregate
//! dirty flag.
//!
//! The registry keeps its drawables sorted by the total order "stacking key
//! ascending, id ascending", re-established on every insertion, and keeps
//! ids unique by overwriting an existing entry when a drawable with the same
//! id is added.  The aggregate dirty flag is a coarse "something changed
//! since the last acknowledged frame" signal, deliberately independent of
//! the per-drawable flags.

use vstd::prelude::*;

use crate::model::{apply_edits, DescriptionEdit, DrawableModel, NeedToDraw, NewShape};
use crate::text::{
    chars_lt, decimal_chars, decimal_string, lemma_chars_lt_asym, lemma_chars_lt_connected,
    lemma_chars_lt_trans, str_lt,
};

verus! {

/// The registry's total order on drawables: stacking key ascending, with
/// the id as lexicographic tie-break.
pub open spec fn key_lt(a: DrawableModel, b: DrawableModel) -> bool {
    a.z_order < b.z_order || (a.z_order == b.z_order && chars_lt(a.id, b.id))
}

/// Every pair of entries is strictly ordered; sorted sequences with the
/// same entries are therefore identical.
pub open spec fn sorted(s: Seq<DrawableModel>) -> bool {
    forall|i: int, j: int| #![trigger s[i], s[j]]
        0 <= i < j < s.len() ==> key_lt(s[i], s[j])
}

/// No two entries share an id.
pub open spec fn unique_ids(s: Seq<DrawableModel>) -> bool {
    forall|i: int, j: int| #![trigger s[i], s[j]]
        0 <= i < s.len() && 0 <= j < s.len() && i != j ==> s[i].id != s[j].id
}

/// Whether some entry carries the given id.
pub open spec fn has_id(s: Seq<DrawableModel>, id: Seq<char>) -> bool {
    exists|i: int| 0 <= i < s.len() && (#[trigger] s[i]).id == id
}

/// The index of the entry with the given id.
pub open spec fn idx_of(s: Seq<DrawableModel>, id: Seq<char>) -> int {
    choose|i: int| 0 <= i < s.len() && (#[trigger] s[i]).id == id
}

/// The sequence with every entry of the given id dropped, order kept.
pub open spec fn drop_id(s: Seq<DrawableModel>, id: Seq<char>) -> Seq<DrawableModel>
    decreases s.len(),
{
    if s.len() == 0 {
        Seq::empty()
    } else if s[0].id == id {
        drop_id(s.drop_first(), id)
    } else {
        seq![s[0]] + drop_id(s.drop_first(), id)
    }
}

/// The sequence with the new entry placed at the position the total order
/// assigns it.
pub open spec fn insert_sorted(s: Seq<DrawableModel>, m: DrawableModel) -> Seq<DrawableModel>
    decreases s.len(),
{
    if s.len() == 0 {
        seq![m]
    } else if key_lt(m, s[0]) {
        seq![m] + s
    } else {
        seq![s[0]] + insert_sorted(s.drop_first(), m)
    }
}

/// What `add` does: any entry with the same id is overwritten, and the new
/// entry takes its sorted position.
pub open spec fn spec_add(s: Seq<DrawableModel>, m: DrawableModel) -> Seq<DrawableModel> {
    insert_sorted(drop_id(s, m.id), m)
}

/// What a found `change` does to the targeted entry: the edits are applied
/// to the description in order, and the entry is marked dirty as soon as
/// there is at least one edit; id and stacking key are never touched.
pub open spec fn edited_model(m: DrawableModel, es: Seq<DescriptionEdit>) -> DrawableModel {
    DrawableModel {
        description: apply_edits(m.description, es),
        changed: if es.len() > 0 {
            true
        } else {
            m.changed
        },
        ..m
    }
}

/// What `change` does: the entry with the given id, if any, is replaced by
/// its edited form; everything else is untouched.
pub open spec fn spec_change(
    s: Seq<DrawableModel>,
    id: Seq<char>,
    es: Seq<DescriptionEdit>,
) -> Seq<DrawableModel> {
    if has_id(s, id) {
        s.update(idx_of(s, id), edited_model(s[idx_of(s, id)], es))
    } else {
        s
    }
}

/// In a registry with unique ids, an id determines the index.
pub proof fn lemma_unique_index(s: Seq<DrawableModel>, i: int, j: int)
    requires
        unique_ids(s),
        0 <= i < s.len(),
        0 <= j < s.len(),
        s[i].id == s[j].id,
    ensures
        i == j,
{
    if i != j {
        assert(s[i].id != s[j].id);
    }
}

/// With unique ids, distinct indices carry distinct ids.
pub proof fn lemma_distinct_ids(s: Seq<DrawableModel>, i: int, j: int)
    requires
        unique_ids(s),
        0 <= i < s.len(),
        0 <= j < s.len(),
        i != j,
    ensures
        s[i].id != s[j].id,
{
    assert(s[i].id != s[j].id);
}

pub proof fn lemma_key_lt_connected(a: DrawableModel, b: DrawableModel)
    requires
        a.id != b.id,
    ensures
        key_lt(a, b) || key_lt(b, a),
{
    if a.z_order == b.z_order {
        lemma_chars_lt_connected(a.id, b.id);
    }
}

pub proof fn lemma_key_lt_asym(a: DrawableModel, b: DrawableModel)
    requires
        key_lt(a, b),
    ensures
        !key_lt(b, a),
{
    if a.z_order == b.z_order && chars_lt(a.id, b.id) {
        lemma_chars_lt_asym(a.id, b.id);
    }
}

pub proof fn lemma_key_lt_trans(a: DrawableModel, b: DrawableModel, c: DrawableModel)
    requires
        key_lt(a, b),
        key_lt(b, c),
    ensures
        key_lt(a, c),
{
    if a.z_order == b.z_order && b.z_order == c.z_order {
        lemma_chars_lt_trans(a.id, b.id, c.id);
    }
}

/// Dropping the first entry keeps the order and the id uniqueness.
proof fn lemma_drop_first_wf(s: Seq<DrawableModel>)
    requires
        s.len() > 0,
    ensures
        sorted(s) ==> sorted(s.drop_first()),
        unique_ids(s) ==> unique_ids(s.drop_first()),
{
    if sorted(s) {
        assert forall|i: int, j: int|
            0 <= i < j < s.drop_first().len() implies key_lt(
            #[trigger] s.drop_first()[i],
            #[trigger] s.drop_first()[j],
        ) by {
            assert(s.drop_first()[i] == s[i + 1]);
            assert(s.drop_first()[j] == s[j + 1]);
        }
    }
    if unique_ids(s) {
        assert forall|i: int, j: int|
            0 <= i < s.drop_first().len() && 0 <= j < s.drop_first().len() && i != j implies (
        #[trigger] s.drop_first()[i]).id != (#[trigger] s.drop_first()[j]).id by {
            assert(s.drop_first()[i] == s[i + 1]);
            assert(s.drop_first()[j] == s[j + 1]);
            lemma_distinct_ids(s, i + 1, j + 1);
        }
    }
}

/// If no entry has the id, dropping it changes nothing.
proof fn lemma_drop_id_absent(s: Seq<DrawableModel>, id: Seq<char>)
    requires
        !has_id(s, id),
    ensures
        drop_id(s, id) == s,
    decreases s.len(),
{
    if s.len() == 0 {
        assert(drop_id(s, id) =~= s);
    } else {
        assert(s[0].id != id);
        assert(!has_id(s.drop_first(), id)) by {
            if has_id(s.drop_first(), id) {
                let k = choose|k: int|
                    0 <= k < s.drop_first().len() && (#[trigger] s.drop_first()[k]).id == id;
                assert(s[k + 1] == s.drop_first()[k]);
                assert(has_id(s, id));
            }
        }
        lemma_drop_id_absent(s.drop_first(), id);
        assert(seq![s[0]] + s.drop_first() =~= s);
    }
}

/// With unique ids, dropping an id is removing the one entry that has it.
proof fn lemma_drop_id_at(s: Seq<DrawableModel>, id: Seq<char>, i: int)
    requires
        unique_ids(s),
        0 <= i < s.len(),
        s[i].id == id,
    ensures
        drop_id(s, id) == s.remove(i),
    decreases s.len(),
{
    s.remove_ensures(i);
    lemma_drop_first_wf(s);
    if i == 0 {
        assert(!has_id(s.drop_first(), id)) by {
            if has_id(s.drop_first(), id) {
                let k = choose|k: int|
                    0 <= k < s.drop_first().len() && (#[trigger] s.drop_first()[k]).id == id;
                assert(s[k + 1] == s.drop_first()[k]);
                lemma_unique_index(s, k + 1, 0);
            }
        }
        lemma_drop_id_absent(s.drop_first(), id);
        assert(s.remove(0) =~= s.drop_first());
    } else {
        lemma_unique_index(s, i, i);
        assert(s[0].id != id) by {
            if s[0].id == id {
                lemma_unique_index(s, 0, i);
            }
        }
        assert(s.drop_first()[i - 1] == s[i]);
        lemma_drop_id_at(s.drop_first(), id, i - 1);
        assert(seq![s[0]] + s.drop_first().remove(i - 1) =~= s.remove(i));
    }
}

/// Removing an entry keeps the order and the id uniqueness.
proof fn lemma_remove_wf(s: Seq<DrawableModel>, i: int)
    requires
        sorted(s),
        unique_ids(s),
        0 <= i < s.len(),
    ensures
        sorted(s.remove(i)),
        unique_ids(s.remove(i)),
{
    s.remove_ensures(i);
    let t = s.remove(i);
    assert forall|k: int, l: int| 0 <= k < l < t.len() implies key_lt(
        #[trigger] t[k],
        #[trigger] t[l],
    ) by {
        let k0: int = if k < i {
            k
        } else {
            k + 1
        };
        let l0: int = if l < i {
            l
        } else {
            l + 1
        };
        assert(t[k] == s[k0]);
        assert(t[l] == s[l0]);
    }
    assert forall|k: int, l: int|
        0 <= k < t.len() && 0 <= l < t.len() && k != l implies (#[trigger] t[k]).id != (
    #[trigger] t[l]).id by {
        let k0: int = if k < i {
            k
        } else {
            k + 1
        };
        let l0: int = if l < i {
            l
        } else {
            l + 1
        };
        assert(t[k] == s[k0]);
        assert(t[l] == s[l0]);
        lemma_distinct_ids(s, k0, l0);
    }
}

/// After removing an entry, its id is gone entirely.
proof fn lemma_remove_id_absent(s: Seq<DrawableModel>, i: int)
    requires
        unique_ids(s),
        0 <= i < s.len(),
    ensures
        !has_id(s.remove(i), s[i].id),
{
    s.remove_ensures(i);
    if has_id(s.remove(i), s[i].id) {
        let k = choose|k: int|
            0 <= k < s.remove(i).len() && (#[trigger] s.remove(i)[k]).id == s[i].id;
        if k < i {
            assert(s.remove(i)[k] == s[k]);
            lemma_unique_index(s, k, i);
        } else {
            assert(s.remove(i)[k] == s[k + 1]);
            lemma_unique_index(s, k + 1, i);
        }
    }
}

/// `insert_sorted` places the entry exactly at the position below which
/// everything is smaller and from which everything is larger.
proof fn lemma_insert_sorted_at(t: Seq<DrawableModel>, m: DrawableModel, p: int)
    requires
        sorted(t),
        0 <= p <= t.len(),
        forall|k: int| 0 <= k < p ==> key_lt(#[trigger] t[k], m),
        forall|k: int| p <= k < t.len() ==> key_lt(m, #[trigger] t[k]),
    ensures
        insert_sorted(t, m) == t.insert(p, m),
    decreases t.len(),
{
    t.insert_ensures(p, m);
    if t.len() == 0 {
        assert(insert_sorted(t, m) =~= t.insert(0, m));
    } else if p == 0 {
        assert(key_lt(m, t[0]));
        assert(seq![m] + t =~= t.insert(0, m));
    } else {
        assert(key_lt(t[0], m));
        lemma_key_lt_asym(t[0], m);
        lemma_drop_first_wf(t);
        assert forall|k: int| 0 <= k < p - 1 implies key_lt(#[trigger] t.drop_first()[k], m) by {
            assert(t.drop_first()[k] == t[k + 1]);
        }
        assert forall|k: int| p - 1 <= k < t.drop_first().len() implies key_lt(
            m,
            #[trigger] t.drop_first()[k],
        ) by {
            assert(t.drop_first()[k] == t[k + 1]);
        }
        lemma_insert_sorted_at(t.drop_first(), m, p - 1);
        t.drop_first().insert_ensures(p - 1, m);
        assert(seq![t[0]] + t.drop_first().insert(p - 1, m) =~= t.insert(p, m));
    }
}

/// Inserting at that position keeps the order, and keeps ids unique as long
/// as the new id was not present.
proof fn lemma_insert_wf(t: Seq<DrawableModel>, m: DrawableModel, p: int)
    requires
        sorted(t),
        unique_ids(t),
        !has_id(t, m.id),
        0 <= p <= t.len(),
        forall|k: int| 0 <= k < p ==> key_lt(#[trigger] t[k], m),
        forall|k: int| p <= k < t.len() ==> key_lt(m, #[trigger] t[k]),
    ensures
        sorted(t.insert(p, m)),
        unique_ids(t.insert(p, m)),
{
    t.insert_ensures(p, m);
    let u = t.insert(p, m);
    assert forall|k: int| 0 <= k < t.len() implies (#[trigger] t[k]).id != m.id by {
        if t[k].id == m.id {
            assert(has_id(t, m.id));
        }
    }
    assert forall|k: int, l: int| 0 <= k < l < u.len() implies key_lt(
        #[trigger] u[k],
        #[trigger] u[l],
    ) by {
        if k < p {
            assert(u[k] == t[k]);
        } else if k == p {
            assert(u[k] == m);
        } else {
            assert(u[k] == t[k - 1]);
        }
        if l < p {
            assert(u[l] == t[l]);
        } else if l == p {
            assert(u[l] == m);
        } else {
            assert(u[l] == t[l - 1]);
        }
    }
    assert forall|k: int, l: int|
        0 <= k < u.len() && 0 <= l < u.len() && k != l implies (#[trigger] u[k]).id != (
    #[trigger] u[l]).id by {
        if k != p && l != p {
            let k0: int = if k < p {
                k
            } else {
                k - 1
            };
            let l0: int = if l < p {
                l
            } else {
                l - 1
            };
            assert(u[k] == t[k0]);
            assert(u[l] == t[l0]);
            lemma_distinct_ids(t, k0, l0);
        } else if k == p {
            let l0: int = if l < p {
                l
            } else {
                l - 1
            };
            assert(u[l] == t[l0]);
        } else {
            let k0: int = if k < p {
                k
            } else {
                k - 1
            };
            assert(u[k] == t[k0]);
        }
    }
}

/// Replacing an entry by one with the same id and stacking key keeps the
/// order and the id uniqueness.
proof fn lemma_update_wf(s: Seq<DrawableModel>, i: int, m: DrawableModel)
    requires
        sorted(s),
        unique_ids(s),
        0 <= i < s.len(),
        m.id == s[i].id,
        m.z_order == s[i].z_order,
    ensures
        sorted(s.update(i, m)),
        unique_ids(s.update(i, m)),
{
    let u = s.update(i, m);
    assert forall|k: int, l: int| 0 <= k < l < u.len() implies key_lt(
        #[trigger] u[k],
        #[trigger] u[l],
    ) by {
        assert(key_lt(s[k], s[l]));
    }
    assert forall|k: int, l: int|
        0 <= k < u.len() && 0 <= l < u.len() && k != l implies (#[trigger] u[k]).id != (
    #[trigger] u[l]).id by {
        lemma_distinct_ids(s, k, l);
    }
}

/// The drawable models of a sequence of drawables.
pub open spec fn models<T>(s: Seq<NewShape<T>>) -> Seq<DrawableModel> {
    s.map_values(|x: NewShape<T>| x@)
}

/// Dropping an id keeps the order and the uniqueness, and afterwards no
/// entry has that id.
pub proof fn lemma_drop_id_wf(s: Seq<DrawableModel>, id: Seq<char>)
    requires
        sorted(s),
        unique_ids(s),
    ensures
        sorted(drop_id(s, id)),
        unique_ids(drop_id(s, id)),
        !has_id(drop_id(s, id), id),
    decreases s.len(),
{
    if has_id(s, id) {
        let i = choose|i: int| 0 <= i < s.len() && (#[trigger] s[i]).id == id;
        lemma_drop_id_at(s, id, i);
        lemma_remove_wf(s, i);
        lemma_remove_id_absent(s, i);
    } else {
        lemma_drop_id_absent(s, id);
        assert(drop_id(s, id) == s);
    }
}

/// Everything `insert_sorted` yields was there before, or is the new entry.
proof fn lemma_insert_sorted_membership(t: Seq<DrawableModel>, m: DrawableModel)
    ensures
        insert_sorted(t, m).len() == t.len() + 1,
        forall|k: int|
            0 <= k < insert_sorted(t, m).len() ==> (#[trigger] insert_sorted(t, m)[k] == m
                || t.contains(insert_sorted(t, m)[k])),
    decreases t.len(),
{
    let u = insert_sorted(t, m);
    if t.len() == 0 {
    } else if key_lt(m, t[0]) {
        assert forall|k: int| 0 <= k < u.len() implies (#[trigger] u[k] == m || t.contains(
            u[k],
        )) by {
            if k > 0 {
                assert(u[k] == t[k - 1]);
                assert(t.contains(t[k - 1]));
            }
        }
    } else {
        lemma_insert_sorted_membership(t.drop_first(), m);
        assert forall|k: int| 0 <= k < u.len() implies (#[trigger] u[k] == m || t.contains(
            u[k],
        )) by {
            if k == 0 {
                assert(u[0] == t[0]);
                assert(t.contains(t[0]));
            } else {
                assert(u[k] == insert_sorted(t.drop_first(), m)[k - 1]);
                if u[k] != m {
                    let j = choose|j: int|
                        0 <= j < t.drop_first().len() && t.drop_first()[j] == u[k];
                    assert(t[j + 1] == u[k]);
                    assert(t.contains(t[j + 1]));
                }
            }
        }
    }
}

/// Law: placing a fresh entry at its sorted position keeps the order and
/// the uniqueness, whatever position that is.
pub proof fn lemma_insert_sorted_wf(t: Seq<DrawableModel>, m: DrawableModel)
    requires
        sorted(t),
        unique_ids(t),
        !has_id(t, m.id),
    ensures
        sorted(insert_sorted(t, m)),
        unique_ids(insert_sorted(t, m)),
    decreases t.len(),
{
    let u = insert_sorted(t, m);
    assert forall|k: int| 0 <= k < t.len() implies (#[trigger] t[k]).id != m.id by {
        if t[k].id == m.id {
            assert(has_id(t, m.id));
        }
    }
    if t.len() == 0 {
    } else if key_lt(m, t[0]) {
        assert forall|k: int, l: int| 0 <= k < l < u.len() implies key_lt(
            #[trigger] u[k],
            #[trigger] u[l],
        ) by {
            if k == 0 {
                assert(u[0] == m);
                assert(u[l] == t[l - 1]);
                if l > 1 {
                    lemma_key_lt_trans(m, t[0], t[l - 1]);
                }
            } else {
                assert(u[k] == t[k - 1]);
                assert(u[l] == t[l - 1]);
            }
        }
        assert forall|k: int, l: int|
            0 <= k < u.len() && 0 <= l < u.len() && k != l implies (#[trigger] u[k]).id != (
        #[trigger] u[l]).id by {
            if k != 0 && l != 0 {
                assert(u[k] == t[k - 1]);
                assert(u[l] == t[l - 1]);
                lemma_distinct_ids(t, k - 1, l - 1);
            } else if k == 0 {
                assert(u[l] == t[l - 1]);
            } else {
                assert(u[k] == t[k - 1]);
            }
        }
    } else {
        assert(t[0].id != m.id);
        lemma_key_lt_connected(m, t[0]);
        assert(key_lt(t[0], m));
        lemma_drop_first_wf(t);
        assert(!has_id(t.drop_first(), m.id)) by {
            if has_id(t.drop_first(), m.id) {
                let k = choose|k: int|
                    0 <= k < t.drop_first().len() && (#[trigger] t.drop_first()[k]).id == m.id;
                assert(t[k + 1] == t.drop_first()[k]);
            }
        }
        lemma_insert_sorted_wf(t.drop_first(), m);
        lemma_insert_sorted_membership(t.drop_first(), m);
        let v = insert_sorted(t.drop_first(), m);
        assert forall|k: int, l: int| 0 <= k < l < u.len() implies key_lt(
            #[trigger] u[k],
            #[trigger] u[l],
        ) by {
            if k == 0 {
                assert(u[l] == v[l - 1]);
                if v[l - 1] == m {
                    assert(key_lt(t[0], m));
                } else {
                    let j = choose|j: int|
                        0 <= j < t.drop_first().len() && t.drop_first()[j] == v[l - 1];
                    assert(t[j + 1] == v[l - 1]);
                    assert(key_lt(t[0], t[j + 1]));
                }
            } else {
                assert(u[k] == v[k - 1]);
                assert(u[l] == v[l - 1]);
            }
        }
        assert forall|k: int, l: int|
            0 <= k < u.len() && 0 <= l < u.len() && k != l implies (#[trigger] u[k]).id != (
        #[trigger] u[l]).id by {
            if k != 0 && l != 0 {
                assert(u[k] == v[k - 1]);
                assert(u[l] == v[l - 1]);
                assert(unique_ids(v));
            } else if k == 0 {
                assert(u[0] == t[0]);
                assert(u[l] == v[l - 1]);
                if v[l - 1] == m {
                } else {
                    let j = choose|j: int|
                        0 <= j < t.drop_first().len() && t.drop_first()[j] == v[l - 1];
                    assert(t[j + 1] == v[l - 1]);
                    lemma_distinct_ids(t, 0, j + 1);
                }
            } else {
                assert(u[l] == t[0]);
                assert(u[k] == v[k - 1]);
                if v[k - 1] == m {
                } else {
                    let j = choose|j: int|
                        0 <= j < t.drop_first().len() && t.drop_first()[j] == v[k - 1];
                    assert(t[j + 1] == v[k - 1]);
                    lemma_distinct_ids(t, 0, j + 1);
                }
            }
        }
    }
}

/// Law: for any sequence of `add` calls, the registry stays strictly
/// sorted with unique ids at every point — one `add` on any well-formed
/// contents yields well-formed contents again.
pub proof fn lemma_add_sorted(s: Seq<DrawableModel>, m: DrawableModel)
    requires
        sorted(s),
        unique_ids(s),
    ensures
        sorted(spec_add(s, m)),
        unique_ids(spec_add(s, m)),
{
    lemma_drop_id_wf(s, m.id);
    lemma_insert_sorted_wf(drop_id(s, m.id), m);
}

/// Law: a remove actually removes.  After dropping an id, no iteration
/// yields an entry with that id any more.
pub proof fn lemma_remove_removes(s: Seq<DrawableModel>, id: Seq<char>)
    ensures
        !has_id(drop_id(s, id), id),
    decreases s.len(),
{
    if s.len() == 0 {
    } else if s[0].id == id {
        lemma_remove_removes(s.drop_first(), id);
    } else {
        lemma_remove_removes(s.drop_first(), id);
        let u = drop_id(s, id);
        if has_id(u, id) {
            let k = choose|k: int| 0 <= k < u.len() && (#[trigger] u[k]).id == id;
            if k == 0 {
                assert(u[0] == s[0]);
            } else {
                assert(u[k] == drop_id(s.drop_first(), id)[k - 1]);
                assert(has_id(drop_id(s.drop_first(), id), id));
            }
        }
    }
}

proof fn lemma_models_remove<T>(s: Seq<NewShape<T>>, i: int)
    requires
        0 <= i < s.len(),
    ensures
        models(s.remove(i)) == models(s).remove(i),
{
    s.remove_ensures(i);
    models(s).remove_ensures(i);
    assert(models(s.remove(i)) =~= models(s).remove(i));
}

proof fn lemma_models_insert<T>(s: Seq<NewShape<T>>, i: int, x: NewShape<T>)
    requires
        0 <= i <= s.len(),
    ensures
        models(s.insert(i, x)) == models(s).insert(i, x@),
{
    s.insert_ensures(i, x);
    models(s).insert_ensures(i, x@);
    assert(models(s.insert(i, x)) =~= models(s).insert(i, x@));
}

/// Decide the registry order between two drawables.
pub fn shape_before<T>(a: &NewShape<T>, b: &NewShape<T>) -> (r: bool)
    ensures
        r == key_lt(a@, b@),
{
    if a.z_order < b.z_order {
        true
    } else if b.z_order < a.z_order {
        false
    } else {
        str_lt(a.id.as_str(), b.id.as_str())
    }
}

/// The registry: drawables in paint order plus the aggregate dirty flag.
pub struct Shapes<T> {
    data: Vec<NewShape<T>>,
    changed: bool,
}

impl<T> View for Shapes<T> {
    type V = Seq<DrawableModel>;

    closed spec fn view(&self) -> Seq<DrawableModel> {
        models(self.data@)
    }
}

impl<T> Shapes<T> {
    /// The aggregate dirty flag, tracked apart from any per-drawable flag.
    pub closed spec fn dirty(&self) -> bool {
        self.changed
    }

    /// The drawables themselves, capabilities included, in paint order.
    pub closed spec fn drawables(&self) -> Seq<NewShape<T>> {
        self.data@
    }

    /// The registry's invariant: entries strictly ordered, ids unique.
    pub open spec fn wf(&self) -> bool {
        sorted(self@) && unique_ids(self@)
    }
}

impl<T: NeedToDraw> Shapes<T> {
    /// An empty registry.  It reports dirty from the start: a fresh
    /// registry owes its first frame until that frame is acknowledged.
    pub fn new() -> (r: Shapes<T>)
        ensures
            r@ == Seq::<DrawableModel>::empty(),
            r.dirty(),
            r.wf(),
    {
        let r = Shapes { data: Vec::new(), changed: true };
        proof {
            assert(r@ =~= Seq::<DrawableModel>::empty());
        }
        r
    }

    /// The index of the drawable with the given id, if present.
    fn find_shape_by_key(&self, key: &String) -> (r: Option<usize>)
        requires
            self.wf(),
        ensures
            match r {
                Some(i) => i < self@.len() && self@[i as int].id == key@ && i == idx_of(
                    self@,
                    key@,
                ) && has_id(self@, key@),
                None => !has_id(self@, key@),
            },
    {
        let mut i: usize = 0;
        while i < self.data.len()
            invariant
                self.wf(),
                i <= self.data.len(),
                forall|k: int| 0 <= k < i ==> (#[trigger] self@[k]).id != key@,
            decreases self.data.len() - i,
        {
            if self.data[i].id == *key {
                proof {
                    assert(self@[i as int].id == key@);
                    assert(has_id(self@, key@));
                    let j = idx_of(self@, key@);
                    assert(0 <= j < self@.len() && self@[j].id == key@);
                    lemma_unique_index(self@, i as int, j);
                }
                return Some(i);
            }
            i = i + 1;
        }
        None
    }

    /// The registry's current drawables, in paint order.
    pub fn iter(&self) -> (r: &Vec<NewShape<T>>)
        ensures
            r@ == self.drawables(),
            models(r@) == self@,
            r@.len() == self@.len(),
            forall|k: int| 0 <= k < r@.len() ==> (#[trigger] r@[k])@ == self@[k],
    {
        &self.data
    }

    /// A fresh id: the decimal string of the current element count.  Only
    /// collision-free as long as removals have not shrunk the count below a
    /// previously issued value.
    pub fn generate_id(&self) -> (r: String)
        ensures
            r@ == decimal_chars(self@.len() as nat),
    {
        decimal_string(self.data.len())
    }

    /// The aggregate "something changed since the last frame" signal.
    pub fn need_drawing(&self) -> (r: bool)
        ensures
            r == self.dirty(),
    {
        self.changed
    }

    /// Acknowledge a completed frame: clears the aggregate flag only; the
    /// renderer acknowledges the drawables it actually painted.
    pub fn changes_drawed(&mut self)
        ensures
            final(self)@ == old(self)@,
            final(self).drawables() == old(self).drawables(),
            !final(self).dirty(),
    {
        self.changed = false
    }

    /// Acknowledge every drawable of a completed render pass: each entry's
    /// own dirty flag is cleared and the acknowledgement is forwarded to its
    /// embedded capability.  The renderer owes this call for the drawables
    /// it painted; the aggregate flag is not touched here.
    pub fn drawables_drawed(&mut self)
        requires
            old(self).wf(),
        ensures
            final(self).wf(),
            final(self)@ == old(self)@.map_values(
                |m: DrawableModel| (DrawableModel { changed: false, ..m }),
            ),
            final(self).dirty() == old(self).dirty(),
    {
        let ghost s0 = self@;
        let ghost raw0 = self.data@;
        let mut i: usize = 0;
        while i < self.data.len()
            invariant
                i <= raw0.len(),
                self.data@.len() == raw0.len(),
                self.changed == old(self).changed,
                forall|k: int|
                    0 <= k < i ==> (#[trigger] self.data@[k])@ == (DrawableModel {
                        changed: false,
                        ..raw0[k]@
                    }),
                forall|k: int| i <= k < raw0.len() ==> #[trigger] self.data@[k] == raw0[k],
            decreases raw0.len() - i,
        {
            let ghost prev = self.data@;
            let mut elem = self.data.remove(i);
            elem.changes_drawed();
            self.data.insert(i, elem);
            proof {
                prev.remove_ensures(i as int);
                prev.remove(i as int).insert_ensures(i as int, elem);
                assert(self.data@ =~= prev.update(i as int, elem));
            }
            i = i + 1;
        }
        proof {
            assert(self@ =~= s0.map_values(
                |m: DrawableModel| (DrawableModel { changed: false, ..m }),
            ));
            let u = self@;
            assert forall|k: int, l: int| 0 <= k < l < u.len() implies key_lt(
                #[trigger] u[k],
                #[trigger] u[l],
            ) by {
                assert(u[k].id == s0[k].id && u[k].z_order == s0[k].z_order);
                assert(u[l].id == s0[l].id && u[l].z_order == s0[l].z_order);
                assert(key_lt(s0[k], s0[l]));
            }
            assert forall|k: int, l: int|
                0 <= k < u.len() && 0 <= l < u.len() && k != l implies (#[trigger] u[k]).id != (
            #[trigger] u[l]).id by {
                lemma_distinct_ids(s0, k, l);
            }
        }
    }

    /// The index at which the registry order places the drawable.
    fn insertion_point(&self, shape: &NewShape<T>) -> (p: usize)
        requires
            self.wf(),
        ensures
            p <= self@.len(),
            forall|k: int| 0 <= k < p ==> key_lt(#[trigger] self@[k], shape@),
            p < self@.len() ==> !key_lt(self@[p as int], shape@),
    {
        let mut p: usize = 0;
        while p < self.data.len()
            invariant
                self.wf(),
                p <= self.data.len(),
                forall|k: int| 0 <= k < p ==> key_lt(#[trigger] self@[k], shape@),
            decreases self.data.len() - p,
        {
            if !shape_before(&self.data[p], shape) {
                return p;
            }
            p = p + 1;
        }
        p
    }

    /// Insert a drawable at its sorted position; an existing drawable with
    /// the same id is overwritten.  The registry reports dirty afterwards.
    pub fn add(&mut self, shape: NewShape<T>)
        requires
            old(self).wf(),
        ensures
            final(self).wf(),
            final(self)@ == spec_add(old(self)@, shape@),
            final(self).dirty(),
            final(self).drawables()[idx_of(final(self)@, shape@.id)] == shape,
            forall|k: int|
                0 <= k < final(self).drawables().len() ==> (#[trigger] final(self).drawables()[k]
                    == shape || old(self).drawables().contains(final(self).drawables()[k])),
    {
        let ghost s0 = self@;
        let ghost raw0 = self.data@;
        match self.find_shape_by_key(&shape.id) {
            Some(i) => {
                proof {
                    lemma_drop_id_at(s0, shape@.id, i as int);
                    lemma_remove_wf(s0, i as int);
                    lemma_remove_id_absent(s0, i as int);
                    lemma_models_remove(self.data@, i as int);
                    raw0.remove_ensures(i as int);
                }
                self.data.remove(i);
                proof {
                    assert forall|k: int| 0 <= k < self.data@.len() implies raw0.contains(
                        #[trigger] self.data@[k],
                    ) by {
                        if k < i {
                            assert(self.data@[k] == raw0[k]);
                        } else {
                            assert(self.data@[k] == raw0[k + 1]);
                        }
                    }
                }
            },
            None => {
                proof {
                    lemma_drop_id_absent(s0, shape@.id);
                    assert forall|k: int| 0 <= k < self.data@.len() implies raw0.contains(
                        #[trigger] self.data@[k],
                    ) by {
                        assert(self.data@[k] == raw0[k]);
                    }
                }
            },
        }
        let ghost t = self@;
        assert(t == drop_id(s0, shape@.id));
        assert(sorted(t) && unique_ids(t) && !has_id(t, shape@.id));
        let p = self.insertion_point(&shape);
        proof {
            assert forall|k: int| p <= k < t.len() implies key_lt(shape@, #[trigger] t[k]) by {
                assert(t[p as int].id != shape@.id) by {
                    if t[p as int].id == shape@.id {
                        assert(has_id(t, shape@.id));
                    }
                }
                lemma_key_lt_connected(shape@, t[p as int]);
                if k > p {
                    lemma_key_lt_trans(shape@, t[p as int], t[k]);
                }
            }
            lemma_insert_sorted_at(t, shape@, p as int);
            lemma_insert_wf(t, shape@, p as int);
            lemma_models_insert(self.data@, p as int, shape);
        }
        let ghost raw1 = self.data@;
        proof {
            raw1.insert_ensures(p as int, shape);
        }
        self.data.insert(p, shape);
        self.changed = true;
        proof {
            assert forall|k: int| 0 <= k < self.data@.len() implies (#[trigger] self.data@[k]
                == shape || raw0.contains(self.data@[k])) by {
                if k < p {
                    assert(self.data@[k] == raw1[k]);
                } else if k > p {
                    assert(self.data@[k] == raw1[k - 1]);
                }
            }
            assert(self.data@[p as int] == shape);
            assert(self@[p as int].id == shape@.id);
            assert(has_id(self@, shape@.id));
            lemma_unique_index(self@, p as int, idx_of(self@, shape@.id));
        }
    }

    /// Locate the drawable with the given id and delete it; a missing id is
    /// a no-op.  The aggregate dirty flag is not touched either way.
    pub fn remove(&mut self, key: &String)
        requires
            old(self).wf(),
        ensures
            final(self).wf(),
            final(self)@ == drop_id(old(self)@, key@),
            final(self).dirty() == old(self).dirty(),
            has_id(old(self)@, key@) ==> final(self).drawables() == old(self).drawables().remove(
                idx_of(old(self)@, key@),
            ),
            !has_id(old(self)@, key@) ==> *final(self) == *old(self),
    {
        let ghost s0 = self@;
        match self.find_shape_by_key(key) {
            Some(i) => {
                proof {
                    lemma_drop_id_at(s0, key@, i as int);
                    lemma_remove_wf(s0, i as int);
                    lemma_models_remove(self.data@, i as int);
                }
                self.data.remove(i);
            },
            None => {
                proof {
                    lemma_drop_id_absent(s0, key@);
                }
            },
        }
    }

    /// Apply a list of edits to the drawable with the given id; the target
    /// is marked dirty by each edit, and the registry reports dirty as soon
    /// as the id was found, even with an empty edit list.  A missing id
    /// leaves the registry entirely unchanged, its dirty flag included.
    pub fn change(&mut self, key: &String, edits: &Vec<DescriptionEdit>)
        requires
            old(self).wf(),
        ensures
            final(self).wf(),
            final(self)@ == spec_change(old(self)@, key@, edits@),
            has_id(old(self)@, key@) ==> final(self).dirty(),
            has_id(old(self)@, key@) ==> {
                let i = idx_of(old(self)@, key@);
                &&& final(self).drawables().len() == old(self).drawables().len()
                &&& forall|k: int|
                    0 <= k < old(self).drawables().len() && k != i ==> final(self).drawables()[k]
                        == old(self).drawables()[k]
                &&& final(self).drawables()[i].holder == old(self).drawables()[i].holder
            },
            !has_id(old(self)@, key@) ==> *final(self) == *old(self),
    {
        let ghost s0 = self@;
        let ghost raw0 = self.data@;
        match self.find_shape_by_key(key) {
            Some(i) => {
                proof {
                    lemma_models_remove(self.data@, i as int);
                }
                let mut elem = self.data.remove(i);
                let ghost m0 = elem@;
                let ghost h0 = elem.holder;
                let mut k: usize = 0;
                while k < edits.len()
                    invariant
                        k <= edits.len(),
                        elem.description == apply_edits(m0.description, edits@.take(k as int)),
                        elem.changed == if k > 0 {
                            true
                        } else {
                            m0.changed
                        },
                        elem.id@ == m0.id,
                        elem.z_order as int == m0.z_order,
                        elem.holder == h0,
                    decreases edits.len() - k,
                {
                    proof {
                        assert(edits@.take(k + 1) =~= edits@.take(k as int).push(edits@[k as int]));
                        crate::model::lemma_apply_edits_snoc(
                            m0.description,
                            edits@.take(k as int),
                            edits@[k as int],
                        );
                    }
                    elem.change_description(&edits[k]);
                    k = k + 1;
                }
                proof {
                    assert(edits@.take(edits@.len() as int) =~= edits@);
                    assert(elem@ == edited_model(m0, edits@));
                    lemma_update_wf(s0, i as int, elem@);
                    lemma_models_insert(self.data@, i as int, elem);
                }
                self.data.insert(i, elem);
                proof {
                    raw0.remove_ensures(i as int);
                    raw0.remove(i as int).insert_ensures(i as int, elem);
                    assert(self.data@ =~= raw0.update(i as int, elem));
                    s0.remove_ensures(i as int);
                    s0.remove(i as int).insert_ensures(i as int, elem@);
                    assert(self@ =~= s0.update(i as int, edited_model(s0[i as int], edits@)));
                }
                self.changed = true;
            },
            None => {},
        }
    }
}

} // verus!
