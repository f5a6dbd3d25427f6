//! The store's laws, proved once of the transition functions in
//! [`crate::model`]. Because every executable operation is proved to
//! produce exactly the transition's state, each law here holds of the
//! executable store as well.

use vstd::prelude::*;
use crate::model::{
    StoreV, store_inv, find_session, session_insert_pos, upsert_session_t, delete_session_t,
    in_range, sessions_in_range, find_rule_key, find_rule_id, rule_insert_pos, upsert_rule_t,
    delete_rule_t, find_setting, get_setting_s, set_setting_t, lemma_find_session,
    lemma_session_insert_pos, lemma_upsert_session_inv, lemma_find_rule_key, lemma_find_rule_id,
    lemma_rule_insert_pos, lemma_upsert_rule_inv, lemma_find_setting,
};
use crate::text::lex_le;
use crate::text::lex_lt;
use crate::types::{SessionV, SessionRowV, RuleBindingV, RuleV, RuleRowV, SettingV};

verus! {

/// Reading a setting right after writing it yields the written value.
pub proof fn lemma_set_then_get(v: StoreV, key: Seq<char>, value: Seq<char>, now: Seq<char>)
    ensures
        get_setting_s(set_setting_t(v, key, value, now), key) == Some(value),
{
    lemma_find_setting(v.settings, key);
    let i = find_setting(v.settings, key);
    let row = SettingV { key: key, value: value, updated_at: now };
    if i >= 0 {
        let r = v.settings.update(i, row);
        lemma_find_setting(r, key);
        let g = find_setting(r, key);
        assert(r[i] == row);
        if g == -1 {
            assert(r[i].key != key);
            assert(false);
        } else if g < i {
            assert(r[g] == v.settings[g]);
            assert(v.settings[g].key != key);
            assert(r[g].key == key);
            assert(false);
        } else if g > i {
            assert(r[i].key != key);
            assert(false);
        }
        assert(g == i);
    } else {
        let r = v.settings.push(row);
        lemma_find_setting(r, key);
        let g = find_setting(r, key);
        let l = v.settings.len() as int;
        assert(r[l] == row);
        if g == -1 {
            assert(r[l].key != key);
            assert(false);
        } else if g < l {
            assert(r[g] == v.settings[g]);
            assert(v.settings[g].key != key);
            assert(r[g].key == key);
            assert(false);
        }
        assert(g == l);
    }
}

/// After a session upsert, exactly one row carries the session's `id`: it
/// holds the given fields, is stamped `updated_at = now`, keeps the
/// replaced row's `created_at` (or takes `now` on a fresh `id`), and the
/// table grows only on a fresh `id`.
pub proof fn lemma_upsert_session_found(v: StoreV, s: SessionV, t: Seq<char>)
    requires
        store_inv(v),
    ensures
        ({
            let v1 = upsert_session_t(v, s, t);
            let f0 = find_session(v.sessions, s.id);
            let f = find_session(v1.sessions, s.id);
            &&& 0 <= f < v1.sessions.len()
            &&& v1.sessions[f].session == s
            &&& v1.sessions[f].updated_at == t
            &&& forall|j: int|
                0 <= j < v1.sessions.len() && j != f ==> (#[trigger] v1.sessions[j]).session.id
                    != s.id
            &&& v1.sessions.len() == (if f0 >= 0 {
                v.sessions.len()
            } else {
                v.sessions.len() + 1
            })
            &&& f0 >= 0 ==> v1.sessions[f].created_at == v.sessions[f0].created_at
            &&& f0 < 0 ==> v1.sessions[f].created_at == t
        }),
{
    lemma_find_session(v.sessions, s.id);
    let i = find_session(v.sessions, s.id);
    let rest = if i >= 0 {
        v.sessions.remove(i)
    } else {
        v.sessions
    };
    if i >= 0 {
        v.sessions.remove_ensures(i);
        assert forall|j: int| 0 <= j < rest.len() implies (#[trigger] rest[j]).session.id
            != s.id by {
            let j0 = if j < i {
                j
            } else {
                j + 1
            };
            assert(rest[j] == v.sessions[j0]);
            if j0 < i {
                assert(v.sessions[j0].session.id != s.id);
            } else {
                assert(v.sessions[i].session.id != v.sessions[j0].session.id);
            }
        }
    }
    let created = if i >= 0 {
        v.sessions[i].created_at
    } else {
        t
    };
    let row = SessionRowV { session: s, created_at: created, updated_at: t };
    lemma_session_insert_pos(rest, s.start_time);
    let p = session_insert_pos(rest, s.start_time);
    rest.insert_ensures(p, row);
    let r1 = rest.insert(p, row);
    assert(r1[p] == row);
    assert forall|j: int| 0 <= j < r1.len() && j != p implies (#[trigger] r1[j]).session.id
        != s.id by {
        if j < p {
            assert(r1[j] == rest[j]);
        } else {
            assert(r1[j] == rest[j - 1]);
        }
    }
    lemma_find_session(r1, s.id);
    let f = find_session(r1, s.id);
    if f == -1 {
        assert(r1[p].session.id != s.id);
        assert(false);
    } else if f != p {
        assert(r1[f].session.id != s.id);
        assert(false);
    }
    assert(f == p);
}

/// Upserting a session under a fresh `id` and then upserting the same
/// `id` with different fields leaves exactly one row for that `id`,
/// holding the latest field values; when the clock advanced between the
/// calls, the row's `updated_at` is strictly later than it was after the
/// first call.
pub proof fn lemma_upsert_session_twice(
    v: StoreV,
    s1: SessionV,
    s2: SessionV,
    t1: Seq<char>,
    t2: Seq<char>,
)
    requires
        store_inv(v),
        forall|i: int| 0 <= i < v.sessions.len() ==> (#[trigger] v.sessions[i]).session.id != s1.id,
        s2.id == s1.id,
        lex_lt(t1, t2),
    ensures
        ({
            let v1 = upsert_session_t(v, s1, t1);
            let v2 = upsert_session_t(v1, s2, t2);
            let f1 = find_session(v1.sessions, s1.id);
            let f2 = find_session(v2.sessions, s1.id);
            &&& v2.sessions.len() == v1.sessions.len()
            &&& 0 <= f2 < v2.sessions.len()
            &&& v2.sessions[f2].session == s2
            &&& forall|j: int|
                0 <= j < v2.sessions.len() && j != f2 ==> (#[trigger] v2.sessions[j]).session.id
                    != s1.id
            &&& lex_lt(v1.sessions[f1].updated_at, v2.sessions[f2].updated_at)
        }),
{
    lemma_find_session(v.sessions, s1.id);
    if find_session(v.sessions, s1.id) >= 0 {
        assert(v.sessions[find_session(v.sessions, s1.id)].session.id == s1.id);
        assert(false);
    }
    lemma_upsert_session_found(v, s1, t1);
    lemma_upsert_session_inv(v, s1, t1);
    let v1 = upsert_session_t(v, s1, t1);
    lemma_upsert_session_found(v1, s2, t2);
    let f1 = find_session(v1.sessions, s1.id);
    assert(v1.sessions[f1].session.id == s1.id);
}

/// Upserting a session is idempotent: repeating the same upsert with the
/// same stamp converges to the same stored state.
pub proof fn lemma_upsert_session_idempotent(v: StoreV, s: SessionV, t: Seq<char>)
    requires
        store_inv(v),
    ensures
        upsert_session_t(upsert_session_t(v, s, t), s, t) == upsert_session_t(v, s, t),
{
    lemma_upsert_session_found(v, s, t);
    lemma_find_session(v.sessions, s.id);
    let i = find_session(v.sessions, s.id);
    let rest = if i >= 0 {
        v.sessions.remove(i)
    } else {
        v.sessions
    };
    let created = if i >= 0 {
        v.sessions[i].created_at
    } else {
        t
    };
    let row = SessionRowV { session: s, created_at: created, updated_at: t };
    lemma_session_insert_pos(rest, s.start_time);
    let p = session_insert_pos(rest, s.start_time);
    rest.insert_ensures(p, row);
    let r1 = rest.insert(p, row);
    let v1 = upsert_session_t(v, s, t);
    assert(v1.sessions == r1);
    // the second upsert finds the row the first one placed
    let f = find_session(r1, s.id);
    assert(f == p && r1[p] == row);
    // removing it again restores the intermediate table
    assert(r1.remove(p) =~= rest);
    assert(upsert_session_t(v1, s, t).sessions == rest.insert(p, row));
    assert(upsert_session_t(v1, s, t) =~= v1);
}

/// Upserting a classification rule is idempotent: repeating the same
/// upsert with the same stamp converges to the same stored state.
pub proof fn lemma_upsert_rule_idempotent(v: StoreV, b: RuleBindingV, t: Seq<char>)
    requires
        store_inv(v),
    ensures
        upsert_rule_t(upsert_rule_t(v, b, t), b, t) == upsert_rule_t(v, b, t),
{
    lemma_upsert_rule_found(v, b, t);
    let v1 = upsert_rule_t(v, b, t);
    let f = find_rule_key(v1.rules, b.kind, b.identifier);
    let prev = v1.rules[f];
    let row = RuleRowV {
        rule: RuleV {
            id: prev.rule.id,
            kind: prev.rule.kind,
            identifier: prev.rule.identifier,
            label: b.label,
            is_active: b.is_active,
        },
        created_at: prev.created_at,
        updated_at: t,
    };
    // the replacement row equals the row already in place
    assert(row =~= prev);
    assert(v1.rules.update(f, row) =~= v1.rules);
    assert(upsert_rule_t(v1, b, t) =~= v1);
}

/// Writing a setting is idempotent: repeating the same write with the
/// same stamp converges to the same stored state.
pub proof fn lemma_set_setting_idempotent(v: StoreV, key: Seq<char>, value: Seq<char>, t: Seq<char>)
    ensures
        set_setting_t(set_setting_t(v, key, value, t), key, value, t) == set_setting_t(
            v,
            key,
            value,
            t,
        ),
{
    lemma_find_setting(v.settings, key);
    let row = SettingV { key: key, value: value, updated_at: t };
    let v1 = set_setting_t(v, key, value, t);
    let i = find_setting(v.settings, key);
    lemma_find_setting(v1.settings, key);
    let g = find_setting(v1.settings, key);
    if i >= 0 {
        assert(v1.settings[i] == row);
        if g == -1 {
            assert(v1.settings[i].key != key);
            assert(false);
        } else if g < i {
            assert(v1.settings[g] == v.settings[g]);
            assert(v.settings[g].key != key);
            assert(v1.settings[g].key == key);
            assert(false);
        } else if g > i {
            assert(v1.settings[i].key != key);
            assert(false);
        }
        assert(g == i);
    } else {
        let l = v.settings.len() as int;
        assert(v1.settings[l] == row);
        if g == -1 {
            assert(v1.settings[l].key != key);
            assert(false);
        } else if g < l {
            assert(v1.settings[g] == v.settings[g]);
            assert(v.settings[g].key != key);
            assert(v1.settings[g].key == key);
            assert(false);
        }
        assert(g == l);
    }
    assert(v1.settings[g] == row);
    assert(v1.settings.update(g, row) =~= v1.settings);
    assert(set_setting_t(v1, key, value, t) =~= v1);
}

/// Deleting a session `id` that no row carries succeeds and leaves the
/// store unchanged.
pub proof fn lemma_delete_missing_session(v: StoreV, id: Seq<char>)
    requires
        forall|i: int| 0 <= i < v.sessions.len() ==> (#[trigger] v.sessions[i]).session.id != id,
    ensures
        delete_session_t(v, id) == v,
{
    lemma_find_session(v.sessions, id);
    let f = find_session(v.sessions, id);
    if f >= 0 {
        assert(v.sessions[f].session.id == id);
        assert(false);
    }
}

/// Deleting a rule `id` that no row carries succeeds and leaves the store
/// unchanged.
pub proof fn lemma_delete_missing_rule(v: StoreV, id: int)
    requires
        forall|i: int| 0 <= i < v.rules.len() ==> (#[trigger] v.rules[i]).rule.id != id,
    ensures
        delete_rule_t(v, id) == v,
{
    lemma_find_rule_id(v.rules, id);
    let f = find_rule_id(v.rules, id);
    if f >= 0 {
        assert(v.rules[f].rule.id == id);
        assert(false);
    }
}

/// After a rule upsert, exactly one row carries the binding's `(kind,
/// identifier)` key: it holds the binding's `label` and `is_active`, is
/// stamped `updated_at = now`, keeps the replaced row's id and
/// `created_at` (or takes the next free id and `created_at = now` on a
/// fresh key), and the table grows only on a fresh key.
pub proof fn lemma_upsert_rule_found(v: StoreV, b: RuleBindingV, t: Seq<char>)
    requires
        store_inv(v),
    ensures
        ({
            let v1 = upsert_rule_t(v, b, t);
            let f0 = find_rule_key(v.rules, b.kind, b.identifier);
            let f = find_rule_key(v1.rules, b.kind, b.identifier);
            &&& 0 <= f < v1.rules.len()
            &&& v1.rules[f].rule.kind == b.kind
            &&& v1.rules[f].rule.identifier == b.identifier
            &&& v1.rules[f].rule.label == b.label
            &&& v1.rules[f].rule.is_active == b.is_active
            &&& v1.rules[f].updated_at == t
            &&& forall|j: int|
                0 <= j < v1.rules.len() && j != f ==> !((#[trigger] v1.rules[j]).rule.kind == b.kind
                    && v1.rules[j].rule.identifier == b.identifier)
            &&& v1.rules.len() == (if f0 >= 0 {
                v.rules.len()
            } else {
                v.rules.len() + 1
            })
            &&& f0 >= 0 ==> v1.rules[f].rule.id == v.rules[f0].rule.id && v1.rules[f].created_at
                == v.rules[f0].created_at
            &&& f0 < 0 ==> v1.rules[f].rule.id == v.next_rule_id && v1.rules[f].created_at == t
        }),
{
    lemma_find_rule_key(v.rules, b.kind, b.identifier);
    let i = find_rule_key(v.rules, b.kind, b.identifier);
    if i >= 0 {
        let prev = v.rules[i];
        let row = RuleRowV {
            rule: RuleV {
                id: prev.rule.id,
                kind: prev.rule.kind,
                identifier: prev.rule.identifier,
                label: b.label,
                is_active: b.is_active,
            },
            created_at: prev.created_at,
            updated_at: t,
        };
        let r1 = v.rules.update(i, row);
        assert(r1[i] == row);
        assert forall|j: int| 0 <= j < r1.len() && j != i implies !((#[trigger] r1[j]).rule.kind
            == b.kind && r1[j].rule.identifier == b.identifier) by {
            assert(r1[j] == v.rules[j]);
            if j < i {
                assert(!(v.rules[j].rule.kind == b.kind && v.rules[j].rule.identifier
                    == b.identifier));
            } else {
                assert(!crate::model::same_rule_key(v.rules[i], v.rules[j]));
            }
        }
        lemma_find_rule_key(r1, b.kind, b.identifier);
        let f = find_rule_key(r1, b.kind, b.identifier);
        if f == -1 {
            assert(!(r1[i].rule.kind == b.kind && r1[i].rule.identifier == b.identifier));
            assert(false);
        } else if f != i {
            assert(!(r1[f].rule.kind == b.kind && r1[f].rule.identifier == b.identifier));
            assert(false);
        }
        assert(f == i);
    } else {
        let row = RuleRowV {
            rule: RuleV {
                id: v.next_rule_id,
                kind: b.kind,
                identifier: b.identifier,
                label: b.label,
                is_active: b.is_active,
            },
            created_at: t,
            updated_at: t,
        };
        lemma_rule_insert_pos(v.rules, b.kind, b.identifier);
        let p = rule_insert_pos(v.rules, b.kind, b.identifier);
        v.rules.insert_ensures(p, row);
        let r1 = v.rules.insert(p, row);
        assert(r1[p] == row);
        assert forall|j: int| 0 <= j < r1.len() && j != p implies !((#[trigger] r1[j]).rule.kind
            == b.kind && r1[j].rule.identifier == b.identifier) by {
            if j < p {
                assert(r1[j] == v.rules[j]);
            } else {
                assert(r1[j] == v.rules[j - 1]);
            }
        }
        lemma_find_rule_key(r1, b.kind, b.identifier);
        let f = find_rule_key(r1, b.kind, b.identifier);
        if f == -1 {
            assert(!(r1[p].rule.kind == b.kind && r1[p].rule.identifier == b.identifier));
            assert(false);
        } else if f != p {
            assert(!(r1[f].rule.kind == b.kind && r1[f].rule.identifier == b.identifier));
            assert(false);
        }
        assert(f == p);
    }
}

/// Upserting a rule binding and then upserting another binding with the
/// same `(kind, identifier)` key leaves exactly one row for that key,
/// holding the second binding's `label` and `is_active` and the id the
/// first call assigned: the second upsert replaces instead of creating a
/// duplicate.
pub proof fn lemma_upsert_rule_twice(
    v: StoreV,
    b1: RuleBindingV,
    b2: RuleBindingV,
    t1: Seq<char>,
    t2: Seq<char>,
)
    requires
        store_inv(v),
        b2.kind == b1.kind,
        b2.identifier == b1.identifier,
    ensures
        ({
            let v1 = upsert_rule_t(v, b1, t1);
            let v2 = upsert_rule_t(v1, b2, t2);
            let f1 = find_rule_key(v1.rules, b1.kind, b1.identifier);
            let f2 = find_rule_key(v2.rules, b1.kind, b1.identifier);
            &&& v2.rules.len() == v1.rules.len()
            &&& 0 <= f2 < v2.rules.len()
            &&& v2.rules[f2].rule.label == b2.label
            &&& v2.rules[f2].rule.is_active == b2.is_active
            &&& v2.rules[f2].updated_at == t2
            &&& v2.rules[f2].rule.id == v1.rules[f1].rule.id
            &&& forall|j: int|
                0 <= j < v2.rules.len() && j != f2 ==> !((#[trigger] v2.rules[j]).rule.kind
                    == b1.kind && v2.rules[j].rule.identifier == b1.identifier)
        }),
{
    lemma_upsert_rule_found(v, b1, t1);
    lemma_upsert_rule_inv(v, b1, t1);
    let v1 = upsert_rule_t(v, b1, t1);
    lemma_upsert_rule_found(v1, b2, t2);
}

/// What a range query returns is exactly the sessions of the in-range
/// rows: every returned session is in range and comes from a row, and
/// every in-range row's session is returned.
pub proof fn lemma_sessions_in_range_exact(
    rows: Seq<SessionRowV>,
    since: Option<Seq<char>>,
    until: Option<Seq<char>>,
)
    ensures
        ({
            let q = sessions_in_range(rows, since, until);
            &&& forall|x: SessionV| #[trigger] q.contains(x) ==> in_range(x.start_time, since, until)
            &&& forall|x: SessionV| #[trigger] q.contains(x) ==> exists|j: int|
                0 <= j < rows.len() && (#[trigger] rows[j]).session == x
            &&& forall|j: int|
                0 <= j < rows.len() && in_range(
                    (#[trigger] rows[j]).session.start_time,
                    since,
                    until,
                ) ==> q.contains(rows[j].session)
        }),
    decreases rows.len(),
{
    let q = sessions_in_range(rows, since, until);
    if rows.len() > 0 {
        lemma_sessions_in_range_exact(rows.skip(1), since, until);
        let q0 = sessions_in_range(rows.skip(1), since, until);
        let keep = in_range(rows[0].session.start_time, since, until);
        assert forall|x: SessionV| #[trigger] q.contains(x) implies in_range(
            x.start_time,
            since,
            until,
        ) && exists|j: int| 0 <= j < rows.len() && (#[trigger] rows[j]).session == x by {
            let i = choose|i: int| 0 <= i < q.len() && q[i] == x;
            if keep && i == 0 {
                assert(rows[0].session == x);
            } else {
                let i0 = if keep {
                    i - 1
                } else {
                    i
                };
                assert(q0[i0] == x);
                assert(q0.contains(x));
                let j0 = choose|j: int|
                    0 <= j < rows.skip(1).len() && rows.skip(1)[j].session == x;
                assert(rows.skip(1)[j0] == rows[j0 + 1]);
                assert(rows[j0 + 1].session == x);
            }
        }
        assert forall|j: int|
            0 <= j < rows.len() && in_range(
                (#[trigger] rows[j]).session.start_time,
                since,
                until,
            ) implies q.contains(rows[j].session) by {
            if j == 0 {
                assert(q[0] == rows[0].session);
            } else {
                assert(rows.skip(1)[j - 1] == rows[j]);
                assert(q0.contains(rows[j].session));
                let i0 = choose|i: int| 0 <= i < q0.len() && q0[i] == rows[j].session;
                if keep {
                    assert(q[i0 + 1] == rows[j].session);
                } else {
                    assert(q[i0] == rows[j].session);
                }
            }
        }
    }
}

/// What a range query returns is ordered ascending by `start_time`, as
/// the stored table is.
pub proof fn lemma_sessions_in_range_sorted(
    rows: Seq<SessionRowV>,
    since: Option<Seq<char>>,
    until: Option<Seq<char>>,
)
    requires
        forall|i: int, j: int|
            0 <= i < j < rows.len() ==> lex_le(
                (#[trigger] rows[i]).session.start_time,
                (#[trigger] rows[j]).session.start_time,
            ),
    ensures
        ({
            let q = sessions_in_range(rows, since, until);
            forall|i: int, j: int|
                0 <= i < j < q.len() ==> lex_le(
                    (#[trigger] q[i]).start_time,
                    (#[trigger] q[j]).start_time,
                )
        }),
    decreases rows.len(),
{
    let q = sessions_in_range(rows, since, until);
    if rows.len() > 0 {
        assert forall|i: int, j: int| 0 <= i < j < rows.skip(1).len() implies lex_le(
            (#[trigger] rows.skip(1)[i]).session.start_time,
            (#[trigger] rows.skip(1)[j]).session.start_time,
        ) by {
            assert(rows.skip(1)[i] == rows[i + 1]);
            assert(rows.skip(1)[j] == rows[j + 1]);
        }
        lemma_sessions_in_range_sorted(rows.skip(1), since, until);
        lemma_sessions_in_range_exact(rows.skip(1), since, until);
        let q0 = sessions_in_range(rows.skip(1), since, until);
        let keep = in_range(rows[0].session.start_time, since, until);
        assert forall|i: int, j: int| 0 <= i < j < q.len() implies lex_le(
            (#[trigger] q[i]).start_time,
            (#[trigger] q[j]).start_time,
        ) by {
            if keep && i == 0 {
                let x = q[j];
                assert(q0[j - 1] == x);
                assert(q0.contains(x));
                let k = choose|k: int|
                    0 <= k < rows.skip(1).len() && rows.skip(1)[k].session == x;
                assert(rows.skip(1)[k] == rows[k + 1]);
                assert(lex_le(rows[0].session.start_time, rows[k + 1].session.start_time));
            } else {
                let i0 = if keep {
                    i - 1
                } else {
                    i
                };
                let j0 = if keep {
                    j - 1
                } else {
                    j
                };
                assert(q[i] == q0[i0]);
                assert(q[j] == q0[j0]);
            }
        }
    }
}

} // verus!
