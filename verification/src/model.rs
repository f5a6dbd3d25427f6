//! The store's mathematical model: its abstract state, the invariant every
//! store value keeps, and one transition function per operation. The
//! executable store proves that each call produces exactly the state these
//! functions describe, and the laws in [`crate::laws`] are proved of the
//! transition functions alone.

use vstd::prelude::*;
use crate::text::{lex_le, lex_lt, lemma_lex_le_total, lemma_lex_le_trans, lemma_lex_le_antisym};
use crate::types::{SessionV, SessionRowV, RuleBindingV, RuleV, RuleRowV, SettingV};

verus! {

/// The abstract state of the store: the three tables, each a sequence of
/// rows, and the next free rule id.
#[verifier::ext_equal]
pub struct StoreV {
    pub sessions: Seq<SessionRowV>,
    pub rules: Seq<RuleRowV>,
    pub settings: Seq<SettingV>,
    pub next_rule_id: int,
}

/// The state of a freshly created store: empty tables, rule ids starting
/// at 1.
pub open spec fn empty_store() -> StoreV {
    StoreV {
        sessions: Seq::empty(),
        rules: Seq::empty(),
        settings: Seq::empty(),
        next_rule_id: 1,
    }
}

/// Session rows have pairwise distinct ids and are sorted ascending by
/// `start_time` (ties in any order).
pub open spec fn sessions_inv(rows: Seq<SessionRowV>) -> bool {
    &&& forall|i: int, j: int|
        0 <= i < j < rows.len() ==> #[trigger] rows[i].session.id != #[trigger] rows[j].session.id
    &&& forall|i: int, j: int|
        0 <= i < j < rows.len() ==> lex_le(
            #[trigger] rows[i].session.start_time,
            #[trigger] rows[j].session.start_time,
        )
}

/// Whether two rule rows carry the same natural key `(kind, identifier)`.
pub open spec fn same_rule_key(a: RuleRowV, b: RuleRowV) -> bool {
    a.rule.kind == b.rule.kind && a.rule.identifier == b.rule.identifier
}

/// Order of rule rows: by `kind`, then by `identifier`.
pub open spec fn rule_key_le(a: RuleRowV, b: RuleRowV) -> bool {
    lex_lt(a.rule.kind, b.rule.kind) || (a.rule.kind == b.rule.kind && lex_le(
        a.rule.identifier,
        b.rule.identifier,
    ))
}

/// Rule rows have pairwise distinct natural keys and ids, are sorted by
/// `(kind, identifier)`, and every id is positive and below the next free
/// one.
pub open spec fn rules_inv(rows: Seq<RuleRowV>, next_id: int) -> bool {
    &&& forall|i: int, j: int|
        0 <= i < j < rows.len() ==> !same_rule_key(#[trigger] rows[i], #[trigger] rows[j])
    &&& forall|i: int, j: int|
        0 <= i < j < rows.len() ==> rule_key_le(#[trigger] rows[i], #[trigger] rows[j])
    &&& forall|i: int| 0 <= i < rows.len() ==> 1 <= (#[trigger] rows[i]).rule.id < next_id
    &&& forall|i: int, j: int|
        0 <= i < j < rows.len() ==> (#[trigger] rows[i]).rule.id != (#[trigger] rows[j]).rule.id
    &&& 1 <= next_id
}

/// Setting rows have pairwise distinct keys.
pub open spec fn settings_inv(rows: Seq<SettingV>) -> bool {
    forall|i: int, j: int|
        0 <= i < j < rows.len() ==> (#[trigger] rows[i]).key != (#[trigger] rows[j]).key
}

/// The store's invariant, kept by every operation.
pub open spec fn store_inv(v: StoreV) -> bool {
    &&& sessions_inv(v.sessions)
    &&& rules_inv(v.rules, v.next_rule_id)
    &&& settings_inv(v.settings)
}

// ---------- locating rows ----------

/// The first index of the session row with this `id`, or `-1` if there is
/// none.
pub open spec fn find_session(rows: Seq<SessionRowV>, id: Seq<char>) -> int
    decreases rows.len(),
{
    if rows.len() == 0 {
        -1
    } else if rows[0].session.id == id {
        0
    } else {
        let r = find_session(rows.skip(1), id);
        if r < 0 {
            -1
        } else {
            r + 1
        }
    }
}

pub proof fn lemma_find_session(rows: Seq<SessionRowV>, id: Seq<char>)
    ensures
        ({
            let r = find_session(rows, id);
            &&& -1 <= r < rows.len()
            &&& r >= 0 ==> rows[r].session.id == id
            &&& forall|i: int| 0 <= i < r ==> (#[trigger] rows[i]).session.id != id
            &&& r == -1 ==> forall|i: int|
                0 <= i < rows.len() ==> (#[trigger] rows[i]).session.id != id
        }),
    decreases rows.len(),
{
    if rows.len() > 0 && rows[0].session.id != id {
        lemma_find_session(rows.skip(1), id);
        let r = find_session(rows, id);
        if r >= 0 {
            assert(rows.skip(1)[r - 1] == rows[r]);
        }
        assert forall|i: int| 0 < i < rows.len() implies rows.skip(1)[i - 1]
            == #[trigger] rows[i] by {}
    }
}

/// The first index of the rule row with this `(kind, identifier)` key, or
/// `-1` if there is none.
pub open spec fn find_rule_key(rows: Seq<RuleRowV>, kind: Seq<char>, identifier: Seq<char>) -> int
    decreases rows.len(),
{
    if rows.len() == 0 {
        -1
    } else if rows[0].rule.kind == kind && rows[0].rule.identifier == identifier {
        0
    } else {
        let r = find_rule_key(rows.skip(1), kind, identifier);
        if r < 0 {
            -1
        } else {
            r + 1
        }
    }
}

pub proof fn lemma_find_rule_key(rows: Seq<RuleRowV>, kind: Seq<char>, identifier: Seq<char>)
    ensures
        ({
            let r = find_rule_key(rows, kind, identifier);
            &&& -1 <= r < rows.len()
            &&& r >= 0 ==> rows[r].rule.kind == kind && rows[r].rule.identifier == identifier
            &&& forall|i: int|
                0 <= i < r ==> !((#[trigger] rows[i]).rule.kind == kind && rows[i].rule.identifier
                    == identifier)
            &&& r == -1 ==> forall|i: int|
                0 <= i < rows.len() ==> !((#[trigger] rows[i]).rule.kind == kind
                    && rows[i].rule.identifier == identifier)
        }),
    decreases rows.len(),
{
    if rows.len() > 0 && !(rows[0].rule.kind == kind && rows[0].rule.identifier == identifier) {
        lemma_find_rule_key(rows.skip(1), kind, identifier);
        assert forall|i: int| 0 < i < rows.len() implies rows.skip(1)[i - 1]
            == #[trigger] rows[i] by {}
    }
}

/// The first index of the rule row with this numeric `id`, or `-1`.
pub open spec fn find_rule_id(rows: Seq<RuleRowV>, id: int) -> int
    decreases rows.len(),
{
    if rows.len() == 0 {
        -1
    } else if rows[0].rule.id == id {
        0
    } else {
        let r = find_rule_id(rows.skip(1), id);
        if r < 0 {
            -1
        } else {
            r + 1
        }
    }
}

pub proof fn lemma_find_rule_id(rows: Seq<RuleRowV>, id: int)
    ensures
        ({
            let r = find_rule_id(rows, id);
            &&& -1 <= r < rows.len()
            &&& r >= 0 ==> rows[r].rule.id == id
            &&& forall|i: int| 0 <= i < r ==> (#[trigger] rows[i]).rule.id != id
            &&& r == -1 ==> forall|i: int| 0 <= i < rows.len() ==> (#[trigger] rows[i]).rule.id != id
        }),
    decreases rows.len(),
{
    if rows.len() > 0 && rows[0].rule.id != id {
        lemma_find_rule_id(rows.skip(1), id);
        assert forall|i: int| 0 < i < rows.len() implies rows.skip(1)[i - 1]
            == #[trigger] rows[i] by {}
    }
}

/// The first index of the setting row with this `key`, or `-1`.
pub open spec fn find_setting(rows: Seq<SettingV>, key: Seq<char>) -> int
    decreases rows.len(),
{
    if rows.len() == 0 {
        -1
    } else if rows[0].key == key {
        0
    } else {
        let r = find_setting(rows.skip(1), key);
        if r < 0 {
            -1
        } else {
            r + 1
        }
    }
}

pub proof fn lemma_find_setting(rows: Seq<SettingV>, key: Seq<char>)
    ensures
        ({
            let r = find_setting(rows, key);
            &&& -1 <= r < rows.len()
            &&& r >= 0 ==> rows[r].key == key
            &&& forall|i: int| 0 <= i < r ==> (#[trigger] rows[i]).key != key
            &&& r == -1 ==> forall|i: int| 0 <= i < rows.len() ==> (#[trigger] rows[i]).key != key
        }),
    decreases rows.len(),
{
    if rows.len() > 0 && rows[0].key != key {
        lemma_find_setting(rows.skip(1), key);
        assert forall|i: int| 0 < i < rows.len() implies rows.skip(1)[i - 1]
            == #[trigger] rows[i] by {}
    }
}

// ---------- insertion positions ----------

/// Where a session starting at `start` goes in the sorted table: after
/// every row that starts no later.
pub open spec fn session_insert_pos(rows: Seq<SessionRowV>, start: Seq<char>) -> int
    decreases rows.len(),
{
    if rows.len() == 0 {
        0
    } else if lex_le(rows[0].session.start_time, start) {
        1 + session_insert_pos(rows.skip(1), start)
    } else {
        0
    }
}

pub proof fn lemma_session_insert_pos(rows: Seq<SessionRowV>, start: Seq<char>)
    ensures
        ({
            let p = session_insert_pos(rows, start);
            &&& 0 <= p <= rows.len()
            &&& forall|j: int|
                0 <= j < p ==> lex_le((#[trigger] rows[j]).session.start_time, start)
            &&& p < rows.len() ==> !lex_le(rows[p].session.start_time, start)
        }),
    decreases rows.len(),
{
    if rows.len() > 0 && lex_le(rows[0].session.start_time, start) {
        lemma_session_insert_pos(rows.skip(1), start);
        assert forall|i: int| 0 < i < rows.len() implies rows.skip(1)[i - 1]
            == #[trigger] rows[i] by {}
    }
}

/// Where a rule keyed `(kind, identifier)` goes in the sorted table.
pub open spec fn rule_insert_pos(rows: Seq<RuleRowV>, kind: Seq<char>, identifier: Seq<char>) -> int
    decreases rows.len(),
{
    if rows.len() == 0 {
        0
    } else if lex_lt(rows[0].rule.kind, kind) || (rows[0].rule.kind == kind && lex_le(
        rows[0].rule.identifier,
        identifier,
    )) {
        1 + rule_insert_pos(rows.skip(1), kind, identifier)
    } else {
        0
    }
}

pub proof fn lemma_rule_insert_pos(rows: Seq<RuleRowV>, kind: Seq<char>, identifier: Seq<char>)
    ensures
        ({
            let p = rule_insert_pos(rows, kind, identifier);
            &&& 0 <= p <= rows.len()
            &&& forall|j: int|
                0 <= j < p ==> (lex_lt((#[trigger] rows[j]).rule.kind, kind) || (rows[j].rule.kind
                    == kind && lex_le(rows[j].rule.identifier, identifier)))
            &&& p < rows.len() ==> !(lex_lt(rows[p].rule.kind, kind) || (rows[p].rule.kind == kind
                && lex_le(rows[p].rule.identifier, identifier)))
        }),
    decreases rows.len(),
{
    if rows.len() > 0 && (lex_lt(rows[0].rule.kind, kind) || (rows[0].rule.kind == kind && lex_le(
        rows[0].rule.identifier,
        identifier,
    ))) {
        lemma_rule_insert_pos(rows.skip(1), kind, identifier);
        assert forall|i: int| 0 < i < rows.len() implies rows.skip(1)[i - 1]
            == #[trigger] rows[i] by {}
    }
}

// ---------- transitions ----------

/// Upserting a session: the row with the same `id` (if any) disappears,
/// and one row with the given fields stands at its sorted place, keeping
/// the old row's `created_at` and stamped `updated_at = now`.
pub open spec fn upsert_session_t(v: StoreV, s: SessionV, now: Seq<char>) -> StoreV {
    let i = find_session(v.sessions, s.id);
    let created = if i >= 0 {
        v.sessions[i].created_at
    } else {
        now
    };
    let rest = if i >= 0 {
        v.sessions.remove(i)
    } else {
        v.sessions
    };
    let row = SessionRowV { session: s, created_at: created, updated_at: now };
    StoreV { sessions: rest.insert(session_insert_pos(rest, s.start_time), row), ..v }
}

/// Deleting a session by `id`: the row disappears if present; a miss
/// changes nothing.
pub open spec fn delete_session_t(v: StoreV, id: Seq<char>) -> StoreV {
    let i = find_session(v.sessions, id);
    if i >= 0 {
        StoreV { sessions: v.sessions.remove(i), ..v }
    } else {
        v
    }
}

/// Whether a session starting at `start` falls in the half-open query
/// interval `[since, until)`; an absent bound does not constrain.
pub open spec fn in_range(start: Seq<char>, since: Option<Seq<char>>, until: Option<Seq<char>>) -> bool {
    &&& (since matches Some(s) ==> lex_le(s, start))
    &&& (until matches Some(u) ==> lex_lt(start, u))
}

/// The sessions of the rows that fall in the interval, in table order.
pub open spec fn sessions_in_range(
    rows: Seq<SessionRowV>,
    since: Option<Seq<char>>,
    until: Option<Seq<char>>,
) -> Seq<SessionV>
    decreases rows.len(),
{
    if rows.len() == 0 {
        Seq::empty()
    } else {
        let rest = sessions_in_range(rows.skip(1), since, until);
        if in_range(rows[0].session.start_time, since, until) {
            seq![rows[0].session] + rest
        } else {
            rest
        }
    }
}

/// Upserting a classification rule: on a fresh `(kind, identifier)` key a
/// new row with the next free id stands at its sorted place; on a known
/// key that row keeps its id, its key and its `created_at`, and takes the
/// new `label` and `is_active` with `updated_at = now`.
pub open spec fn upsert_rule_t(v: StoreV, b: RuleBindingV, now: Seq<char>) -> StoreV {
    let i = find_rule_key(v.rules, b.kind, b.identifier);
    if i >= 0 {
        let prev = v.rules[i];
        let row = RuleRowV {
            rule: RuleV {
                id: prev.rule.id,
                kind: prev.rule.kind,
                identifier: prev.rule.identifier,
                label: b.label,
                is_active: b.is_active,
            },
            created_at: prev.created_at,
            updated_at: now,
        };
        StoreV { rules: v.rules.update(i, row), ..v }
    } else {
        let row = RuleRowV {
            rule: RuleV {
                id: v.next_rule_id,
                kind: b.kind,
                identifier: b.identifier,
                label: b.label,
                is_active: b.is_active,
            },
            created_at: now,
            updated_at: now,
        };
        StoreV {
            rules: v.rules.insert(rule_insert_pos(v.rules, b.kind, b.identifier), row),
            next_rule_id: v.next_rule_id + 1,
            ..v
        }
    }
}

/// Deleting a rule by numeric `id`: the row disappears if present; a miss
/// changes nothing.
pub open spec fn delete_rule_t(v: StoreV, id: int) -> StoreV {
    let i = find_rule_id(v.rules, id);
    if i >= 0 {
        StoreV { rules: v.rules.remove(i), ..v }
    } else {
        v
    }
}

/// The value stored under `key`, or `None`.
pub open spec fn get_setting_s(v: StoreV, key: Seq<char>) -> Option<Seq<char>> {
    let i = find_setting(v.settings, key);
    if i >= 0 {
        Some(v.settings[i].value)
    } else {
        None
    }
}

/// Writing a setting: the row under `key` takes `value` in place, or a new
/// row is appended; either way `updated_at = now`.
pub open spec fn set_setting_t(v: StoreV, key: Seq<char>, value: Seq<char>, now: Seq<char>) -> StoreV {
    let i = find_setting(v.settings, key);
    let row = SettingV { key: key, value: value, updated_at: now };
    if i >= 0 {
        StoreV { settings: v.settings.update(i, row), ..v }
    } else {
        StoreV { settings: v.settings.push(row), ..v }
    }
}

// ---------- the invariant is kept ----------

pub proof fn lemma_remove_sessions_inv(rows: Seq<SessionRowV>, i: int)
    requires
        sessions_inv(rows),
        0 <= i < rows.len(),
    ensures
        sessions_inv(rows.remove(i)),
{
    rows.remove_ensures(i);
    let r = rows.remove(i);
    assert forall|a: int, b: int| 0 <= a < b < r.len() implies #[trigger] r[a].session.id
        != #[trigger] r[b].session.id && lex_le(r[a].session.start_time, r[b].session.start_time) by {
        let a0 = if a < i { a } else { a + 1 };
        let b0 = if b < i { b } else { b + 1 };
        assert(r[a] == rows[a0]);
        assert(r[b] == rows[b0]);
        assert(rows[a0].session.id != rows[b0].session.id);
        assert(lex_le(rows[a0].session.start_time, rows[b0].session.start_time));
    }
}

pub proof fn lemma_insert_sessions_inv(rows: Seq<SessionRowV>, row: SessionRowV, p: int)
    requires
        sessions_inv(rows),
        0 <= p <= rows.len(),
        forall|j: int| 0 <= j < p ==> lex_le((#[trigger] rows[j]).session.start_time, row.session.start_time),
        p < rows.len() ==> !lex_le(rows[p].session.start_time, row.session.start_time),
        forall|j: int| 0 <= j < rows.len() ==> (#[trigger] rows[j]).session.id != row.session.id,
    ensures
        sessions_inv(rows.insert(p, row)),
{
    rows.insert_ensures(p, row);
    let r = rows.insert(p, row);
    if p < rows.len() {
        lemma_lex_le_total(rows[p].session.start_time, row.session.start_time);
    }
    assert forall|a: int, b: int| 0 <= a < b < r.len() implies #[trigger] r[a].session.id
        != #[trigger] r[b].session.id && lex_le(r[a].session.start_time, r[b].session.start_time) by {
        if a < p && b < p {
            assert(r[a] == rows[a]);
            assert(r[b] == rows[b]);
        } else if a < p && b == p {
            assert(r[a] == rows[a]);
            assert(r[b] == row);
        } else if a < p && b > p {
            assert(r[a] == rows[a]);
            assert(r[b] == rows[b - 1]);
        } else if a == p && b > p {
            assert(r[a] == row);
            assert(r[b] == rows[b - 1]);
            // row goes strictly before the old row at p, which is no later
            // than every row after it
            assert(lex_le(row.session.start_time, rows[p].session.start_time));
            if b - 1 > p {
                assert(lex_le(rows[p].session.start_time, rows[b - 1].session.start_time));
                lemma_lex_le_trans(
                    row.session.start_time,
                    rows[p].session.start_time,
                    rows[b - 1].session.start_time,
                );
            }
        } else {
            assert(a > p && b > p);
            assert(r[a] == rows[a - 1]);
            assert(r[b] == rows[b - 1]);
        }
    }
}

pub proof fn lemma_upsert_session_inv(v: StoreV, s: SessionV, now: Seq<char>)
    requires
        store_inv(v),
    ensures
        store_inv(upsert_session_t(v, s, now)),
{
    lemma_find_session(v.sessions, s.id);
    let i = find_session(v.sessions, s.id);
    let rest = if i >= 0 {
        v.sessions.remove(i)
    } else {
        v.sessions
    };
    if i >= 0 {
        lemma_remove_sessions_inv(v.sessions, i);
        v.sessions.remove_ensures(i);
        assert forall|j: int| 0 <= j < rest.len() implies (#[trigger] rest[j]).session.id != s.id by {
            let j0 = if j < i { j } else { j + 1 };
            assert(rest[j] == v.sessions[j0]);
            if j0 < i {
                assert(v.sessions[j0].session.id != s.id);
            } else {
                assert(v.sessions[i].session.id != v.sessions[j0].session.id);
            }
        }
    }
    let created = if i >= 0 {
        v.sessions[i].created_at
    } else {
        now
    };
    let row = SessionRowV { session: s, created_at: created, updated_at: now };
    lemma_session_insert_pos(rest, s.start_time);
    lemma_insert_sessions_inv(rest, row, session_insert_pos(rest, s.start_time));
}

pub proof fn lemma_delete_session_inv(v: StoreV, id: Seq<char>)
    requires
        store_inv(v),
    ensures
        store_inv(delete_session_t(v, id)),
{
    lemma_find_session(v.sessions, id);
    let i = find_session(v.sessions, id);
    if i >= 0 {
        lemma_remove_sessions_inv(v.sessions, i);
    }
}

pub proof fn lemma_remove_rules_inv(rows: Seq<RuleRowV>, next_id: int, i: int)
    requires
        rules_inv(rows, next_id),
        0 <= i < rows.len(),
    ensures
        rules_inv(rows.remove(i), next_id),
{
    rows.remove_ensures(i);
    let r = rows.remove(i);
    assert forall|a: int, b: int| 0 <= a < b < r.len() implies !same_rule_key(
        #[trigger] r[a],
        #[trigger] r[b],
    ) && rule_key_le(r[a], r[b]) && r[a].rule.id != r[b].rule.id by {
        let a0 = if a < i { a } else { a + 1 };
        let b0 = if b < i { b } else { b + 1 };
        assert(r[a] == rows[a0]);
        assert(r[b] == rows[b0]);
        assert(!same_rule_key(rows[a0], rows[b0]));
        assert(rule_key_le(rows[a0], rows[b0]));
    }
    assert forall|a: int| 0 <= a < r.len() implies 1 <= (#[trigger] r[a]).rule.id < next_id by {
        let a0 = if a < i { a } else { a + 1 };
        assert(r[a] == rows[a0]);
    }
}

#[verifier::rlimit(60)]
pub proof fn lemma_upsert_rule_inv(v: StoreV, b: RuleBindingV, now: Seq<char>)
    requires
        store_inv(v),
    ensures
        store_inv(upsert_rule_t(v, b, now)),
{
    lemma_find_rule_key(v.rules, b.kind, b.identifier);
    let i = find_rule_key(v.rules, b.kind, b.identifier);
    if i >= 0 {
        let rows = v.rules;
        let prev = rows[i];
        let row = RuleRowV {
            rule: RuleV {
                id: prev.rule.id,
                kind: prev.rule.kind,
                identifier: prev.rule.identifier,
                label: b.label,
                is_active: b.is_active,
            },
            created_at: prev.created_at,
            updated_at: now,
        };
        let r = rows.update(i, row);
        assert forall|a: int, c: int| 0 <= a < c < r.len() implies !same_rule_key(
            #[trigger] r[a],
            #[trigger] r[c],
        ) && rule_key_le(r[a], r[c]) && r[a].rule.id != r[c].rule.id by {
            assert(r[a].rule.kind == rows[a].rule.kind);
            assert(r[a].rule.identifier == rows[a].rule.identifier);
            assert(r[a].rule.id == rows[a].rule.id);
            assert(r[c].rule.kind == rows[c].rule.kind);
            assert(r[c].rule.identifier == rows[c].rule.identifier);
            assert(r[c].rule.id == rows[c].rule.id);
            assert(!same_rule_key(rows[a], rows[c]));
            assert(rule_key_le(rows[a], rows[c]));
        }
        assert forall|a: int| 0 <= a < r.len() implies 1 <= (#[trigger] r[a]).rule.id
            < v.next_rule_id by {
            assert(r[a].rule.id == rows[a].rule.id);
        }
    } else {
        let rows = v.rules;
        let row = RuleRowV {
            rule: RuleV {
                id: v.next_rule_id,
                kind: b.kind,
                identifier: b.identifier,
                label: b.label,
                is_active: b.is_active,
            },
            created_at: now,
            updated_at: now,
        };
        let p = rule_insert_pos(rows, b.kind, b.identifier);
        lemma_rule_insert_pos(rows, b.kind, b.identifier);
        rows.insert_ensures(p, row);
        let r = rows.insert(p, row);
        assert forall|a: int, c: int| 0 <= a < c < r.len() implies !same_rule_key(
            #[trigger] r[a],
            #[trigger] r[c],
        ) && rule_key_le(r[a], r[c]) && r[a].rule.id != r[c].rule.id && 1 <= r[a].rule.id
            < v.next_rule_id + 1 && 1 <= r[c].rule.id < v.next_rule_id + 1 by {
            if a < p && c < p {
                assert(r[a] == rows[a]);
                assert(r[c] == rows[c]);
            } else if a < p && c == p {
                assert(r[a] == rows[a]);
                assert(r[c] == row);
                // the key is fresh, and rows before the insertion position
                // are key-below it
            } else if a < p && c > p {
                assert(r[a] == rows[a]);
                assert(r[c] == rows[c - 1]);
            } else if a == p && c > p {
                assert(r[a] == row);
                assert(r[c] == rows[c - 1]);
                let q = rows[p];
                // from the insertion position, the new key is strictly
                // before q's key
                assert(!(lex_lt(q.rule.kind, b.kind) || (q.rule.kind == b.kind && lex_le(
                    q.rule.identifier,
                    b.identifier,
                ))));
                assert(lex_le(b.kind, q.rule.kind));
                if q.rule.kind == b.kind {
                    lemma_lex_le_total(q.rule.identifier, b.identifier);
                    assert(lex_le(b.identifier, q.rule.identifier));
                } else {
                    if lex_le(q.rule.kind, b.kind) {
                        lemma_lex_le_antisym(b.kind, q.rule.kind);
                        assert(false);
                    }
                    assert(lex_lt(b.kind, q.rule.kind));
                }
                if c - 1 == p {
                    assert(rule_key_le(r[a], r[c]));
                } else {
                    assert(rule_key_le(q, rows[c - 1]));
                    if lex_lt(q.rule.kind, rows[c - 1].rule.kind) {
                        if lex_le(rows[c - 1].rule.kind, b.kind) {
                            lemma_lex_le_trans(rows[c - 1].rule.kind, b.kind, q.rule.kind);
                            assert(false);
                        }
                        assert(lex_lt(b.kind, rows[c - 1].rule.kind));
                    } else {
                        assert(q.rule.kind == rows[c - 1].rule.kind && lex_le(
                            q.rule.identifier,
                            rows[c - 1].rule.identifier,
                        ));
                        if q.rule.kind == b.kind {
                            lemma_lex_le_trans(
                                b.identifier,
                                q.rule.identifier,
                                rows[c - 1].rule.identifier,
                            );
                        }
                    }
                    assert(rule_key_le(r[a], r[c]));
                }
            } else {
                assert(a > p && c > p);
                assert(r[a] == rows[a - 1]);
                assert(r[c] == rows[c - 1]);
            }
        }
    }
}

pub proof fn lemma_delete_rule_inv(v: StoreV, id: int)
    requires
        store_inv(v),
    ensures
        store_inv(delete_rule_t(v, id)),
{
    lemma_find_rule_id(v.rules, id);
    let i = find_rule_id(v.rules, id);
    if i >= 0 {
        lemma_remove_rules_inv(v.rules, v.next_rule_id, i);
    }
}

pub proof fn lemma_set_setting_inv(v: StoreV, key: Seq<char>, value: Seq<char>, now: Seq<char>)
    requires
        store_inv(v),
    ensures
        store_inv(set_setting_t(v, key, value, now)),
{
    lemma_find_setting(v.settings, key);
    let i = find_setting(v.settings, key);
    let rows = v.settings;
    let row = SettingV { key: key, value: value, updated_at: now };
    if i >= 0 {
        let r = rows.update(i, row);
        assert forall|a: int, b: int| 0 <= a < b < r.len() implies (#[trigger] r[a]).key
            != (#[trigger] r[b]).key by {
            if a != i && b != i {
                assert(r[a] == rows[a]);
                assert(r[b] == rows[b]);
            } else if a == i {
                assert(r[b] == rows[b]);
                assert(rows[b].key != key);
            } else {
                assert(r[a] == rows[a]);
                assert(rows[a].key != key);
            }
        }
    } else {
        let r = rows.push(row);
        assert forall|a: int, b: int| 0 <= a < b < r.len() implies (#[trigger] r[a]).key
            != (#[trigger] r[b]).key by {
            if b < rows.len() {
                assert(r[a] == rows[a]);
                assert(r[b] == rows[b]);
            } else {
                assert(r[a] == rows[a]);
                assert(r[b] == row);
                assert(rows[a].key != key);
            }
        }
    }
}

} // verus!
