//! The session store: the single point of truth for persisted state. The
//! tables live in memory, every operation is proved to produce exactly the
//! state that the transition functions of [`crate::model`] describe, and
//! the surrounding shell writes each change through to its backing file.

use vstd::prelude::*;
use crate::model::{
    StoreV, empty_store, store_inv, find_session, session_insert_pos, upsert_session_t,
    delete_session_t, in_range, sessions_in_range, find_rule_key, find_rule_id, rule_insert_pos,
    upsert_rule_t, delete_rule_t, find_setting, get_setting_s, set_setting_t, lemma_find_session,
    lemma_session_insert_pos, lemma_upsert_session_inv, lemma_delete_session_inv,
    lemma_find_rule_key, lemma_find_rule_id, lemma_rule_insert_pos, lemma_upsert_rule_inv,
    lemma_delete_rule_inv, lemma_find_setting, lemma_set_setting_inv,
};
use crate::text::{lex_le, lex_lt, str_le, str_lt, str_eq, opt_str_view};
use crate::types::{
    Session, SessionRow, SessionRowV, RuleBinding, RuleBindingV, ClassificationRule, RuleRow,
    RuleRowV, RuleV, SettingRow, SettingV, StorageError,
};

verus! {

/// The current moment as an ISO-8601 UTC timestamp with millisecond
/// precision — the stamp the store writes into its audit columns.
///
/// Relies on `chrono::Utc::now` and `chrono::DateTime::format`: the result
/// depends on the wall clock, so nothing is promised of it.
#[verifier::external_body]
pub(crate) fn now_utc_iso() -> String {
    chrono::Utc::now().format("%Y-%m-%dT%H:%M:%S%.3fZ").to_string()
}

/// Whether `row`'s `(kind, identifier)` key comes no later than the given
/// key in the rule table's order.
fn rule_key_before(row: &RuleRow, kind: &str, identifier: &str) -> (r: bool)
    ensures
        r == (lex_lt(row@.rule.kind, kind@) || (row@.rule.kind == kind@ && lex_le(
            row@.rule.identifier,
            identifier@,
        ))),
{
    if str_lt(row.rule.kind.as_str(), kind) {
        true
    } else if str_eq(row.rule.kind.as_str(), kind) {
        str_le(row.rule.identifier.as_str(), identifier)
    } else {
        false
    }
}

/// The store: three in-memory tables — sessions, classification rules,
/// user settings — and the next free rule id. Sessions are kept sorted by
/// `start_time`, rules by `(kind, identifier)`; ids and keys are unique.
pub struct Store {
    sessions: Vec<SessionRow>,
    rules: Vec<RuleRow>,
    settings: Vec<SettingRow>,
    next_rule_id: i64,
}

impl View for Store {
    type V = StoreV;

    closed spec fn view(&self) -> StoreV {
        StoreV {
            sessions: self.sessions@.map_values(|r: SessionRow| r@),
            rules: self.rules@.map_values(|r: RuleRow| r@),
            settings: self.settings@.map_values(|r: SettingRow| r@),
            next_rule_id: self.next_rule_id as int,
        }
    }
}

impl Store {
    /// The store's internal invariant: unique ids and keys, sorted tables.
    pub open spec fn wf(&self) -> bool {
        store_inv(self@)
    }

    /// A freshly created store: all tables empty, rule ids starting at 1.
    pub fn new() -> (r: Store)
        ensures
            r.wf(),
            r@ == empty_store(),
    {
        let s = Store { sessions: Vec::new(), rules: Vec::new(), settings: Vec::new(), next_rule_id: 1 };
        proof {
            assert(s@ =~= empty_store());
        }
        s
    }

    /// Inserts the session, or — when a row with the same `id` exists —
    /// replaces that row's `start_time`, `duration_seconds` and
    /// `session_key`, keeping its `created_at`; either way the row is
    /// stamped `updated_at = now` and stands at its place in `start_time`
    /// order. Repeating the same call converges to the same state.
    pub fn upsert_session_at(&mut self, s: Session, now: String)
        requires
            old(self).wf(),
        ensures
            final(self).wf(),
            final(self)@ == upsert_session_t(old(self)@, s@, now@),
    {
        let ghost v0 = self@;
        let ghost sv = s@;
        let ghost nowv = now@;
        proof {
            lemma_upsert_session_inv(v0, sv, nowv);
            lemma_find_session(v0.sessions, sv.id);
        }
        let n: usize = self.sessions.len();
        let mut k: usize = 0;
        while k < n && self.sessions[k].session.id != s.id
            invariant
                self@ == v0,
                sv == s@,
                n == self.sessions.len(),
                k <= n,
                forall|j: int| 0 <= j < k ==> (#[trigger] v0.sessions[j]).session.id != sv.id,
            decreases n - k,
        {
            k += 1;
        }
        let ghost f = find_session(v0.sessions, sv.id);
        proof {
            if k < n {
                assert(v0.sessions[k as int].session.id == sv.id);
                if f == -1 {
                    assert(v0.sessions[k as int].session.id != sv.id);
                } else if f < k {
                    assert(v0.sessions[f].session.id != sv.id);
                    assert(v0.sessions[f].session.id == sv.id);
                } else if f > k {
                    assert(v0.sessions[k as int].session.id != sv.id);
                }
                assert(f == k);
            } else {
                if f >= 0 {
                    assert(v0.sessions[f].session.id == sv.id);
                    assert(v0.sessions[f].session.id != sv.id);
                }
                assert(f == -1);
            }
        }
        let created: String;
        if k < n {
            created = self.sessions[k].created_at.clone();
            self.sessions.remove(k);
        } else {
            created = now.clone();
        }
        let ghost rest = if f >= 0 {
            v0.sessions.remove(f)
        } else {
            v0.sessions
        };
        proof {
            assert(self@.sessions =~= rest);
            lemma_session_insert_pos(rest, sv.start_time);
        }
        let n2: usize = self.sessions.len();
        let mut p: usize = 0;
        while p < n2 && str_le(self.sessions[p].session.start_time.as_str(), s.start_time.as_str())
            invariant
                self@.sessions == rest,
                sv == s@,
                n2 == self.sessions.len(),
                p <= n2,
                forall|j: int|
                    0 <= j < p ==> lex_le((#[trigger] rest[j]).session.start_time, sv.start_time),
            decreases n2 - p,
        {
            p += 1;
        }
        let ghost pp = session_insert_pos(rest, sv.start_time);
        proof {
            if p < n2 {
                assert(!lex_le(rest[p as int].session.start_time, sv.start_time));
            }
            if p < pp {
                assert(lex_le(rest[p as int].session.start_time, sv.start_time));
            } else if pp < p {
                assert(lex_le(rest[pp].session.start_time, sv.start_time));
                assert(!lex_le(rest[pp].session.start_time, sv.start_time));
            }
            assert(p == pp);
        }
        let row = SessionRow { session: s, created_at: created, updated_at: now };
        self.sessions.insert(p, row);
        proof {
            let created_v = if f >= 0 {
                v0.sessions[f].created_at
            } else {
                nowv
            };
            let row_v = SessionRowV { session: sv, created_at: created_v, updated_at: nowv };
            assert(self@.sessions =~= rest.insert(pp, row_v));
            assert(self@ =~= upsert_session_t(v0, sv, nowv));
        }
    }

    /// Inserts or replaces the session, stamping it with the clock; the
    /// resulting state is the upsert transition for the stamp that was
    /// read.
    pub fn upsert_session(&mut self, s: Session)
        requires
            old(self).wf(),
        ensures
            final(self).wf(),
            exists|t: Seq<char>| final(self)@ == #[trigger] upsert_session_t(old(self)@, s@, t),
    {
        let ghost v0 = self@;
        let ghost sv = s@;
        let now = now_utc_iso();
        let ghost nowv = now@;
        self.upsert_session_at(s, now);
        proof {
            assert(self@ == upsert_session_t(v0, sv, nowv));
        }
    }

    /// Removes the session row with this `id`; deleting an absent `id`
    /// succeeds and leaves the store unchanged.
    pub fn delete_session(&mut self, id: &str)
        requires
            old(self).wf(),
        ensures
            final(self).wf(),
            final(self)@ == delete_session_t(old(self)@, id@),
    {
        let ghost v0 = self@;
        proof {
            lemma_delete_session_inv(v0, id@);
            lemma_find_session(v0.sessions, id@);
        }
        let n: usize = self.sessions.len();
        let mut k: usize = 0;
        while k < n && !str_eq(self.sessions[k].session.id.as_str(), id)
            invariant
                self@ == v0,
                n == self.sessions.len(),
                k <= n,
                forall|j: int| 0 <= j < k ==> (#[trigger] v0.sessions[j]).session.id != id@,
            decreases n - k,
        {
            k += 1;
        }
        let ghost f = find_session(v0.sessions, id@);
        proof {
            if k < n {
                assert(v0.sessions[k as int].session.id == id@);
                if f == -1 {
                    assert(v0.sessions[k as int].session.id != id@);
                } else if f < k {
                    assert(v0.sessions[f].session.id != id@);
                    assert(v0.sessions[f].session.id == id@);
                } else if f > k {
                    assert(v0.sessions[k as int].session.id != id@);
                }
                assert(f == k);
            } else {
                if f >= 0 {
                    assert(v0.sessions[f].session.id == id@);
                    assert(v0.sessions[f].session.id != id@);
                }
                assert(f == -1);
            }
        }
        if k < n {
            self.sessions.remove(k);
            proof {
                assert(self@.sessions =~= v0.sessions.remove(f));
                assert(self@ =~= delete_session_t(v0, id@));
            }
        } else {
            proof {
                assert(self@ =~= delete_session_t(v0, id@));
            }
        }
    }

    /// The stored row for this session `id`, with its audit stamps, or
    /// `None` if the store has no such session.
    pub fn get_session_row(&self, id: &str) -> (r: Option<SessionRow>)
        requires
            self.wf(),
        ensures
            ({
                let f = find_session(self@.sessions, id@);
                &&& (r is Some) == (f >= 0)
                &&& (r matches Some(row) ==> f >= 0 && row@ == self@.sessions[f])
            }),
    {
        proof {
            lemma_find_session(self@.sessions, id@);
        }
        let n: usize = self.sessions.len();
        let mut k: usize = 0;
        while k < n && !str_eq(self.sessions[k].session.id.as_str(), id)
            invariant
                n == self.sessions.len(),
                k <= n,
                forall|j: int| 0 <= j < k ==> (#[trigger] self@.sessions[j]).session.id != id@,
            decreases n - k,
        {
            k += 1;
        }
        let ghost f = find_session(self@.sessions, id@);
        if k < n {
            proof {
                assert(self@.sessions[k as int].session.id == id@);
                if f == -1 {
                    assert(self@.sessions[k as int].session.id != id@);
                } else if f < k {
                    assert(self@.sessions[f].session.id != id@);
                    assert(self@.sessions[f].session.id == id@);
                } else if f > k {
                    assert(self@.sessions[k as int].session.id != id@);
                }
                assert(f == k);
            }
            let row = &self.sessions[k];
            Some(
                SessionRow {
                    session: Session {
                        id: row.session.id.clone(),
                        start_time: row.session.start_time.clone(),
                        duration_seconds: row.session.duration_seconds,
                        session_key: row.session.session_key.clone(),
                    },
                    created_at: row.created_at.clone(),
                    updated_at: row.updated_at.clone(),
                },
            )
        } else {
            proof {
                if f >= 0 {
                    assert(self@.sessions[f].session.id == id@);
                    assert(self@.sessions[f].session.id != id@);
                }
                assert(f == -1);
            }
            None
        }
    }

    /// The sessions whose `start_time` falls in the half-open interval
    /// `[since, until)` — either bound optional — in ascending
    /// `start_time` order, materialized in full.
    pub fn query_sessions(&self, since: Option<&str>, until: Option<&str>) -> (r: Vec<Session>)
        requires
            self.wf(),
        ensures
            r@.map_values(|x: Session| x@) == sessions_in_range(
                self@.sessions,
                opt_str_view(since),
                opt_str_view(until),
            ),
    {
        let ghost rows = self@.sessions;
        let ghost sv = opt_str_view(since);
        let ghost uv = opt_str_view(until);
        let n: usize = self.sessions.len();
        let mut out: Vec<Session> = Vec::new();
        let mut i: usize = 0;
        proof {
            assert(rows.skip(0) =~= rows);
            assert(out@.map_values(|x: Session| x@) + sessions_in_range(rows, sv, uv)
                =~= sessions_in_range(rows, sv, uv));
        }
        while i < n
            invariant
                self@.sessions == rows,
                sv == opt_str_view(since),
                uv == opt_str_view(until),
                n == self.sessions.len(),
                i <= n,
                sessions_in_range(rows, sv, uv) == out@.map_values(|x: Session| x@)
                    + sessions_in_range(rows.skip(i as int), sv, uv),
            decreases n - i,
        {
            let ghost out0 = out@;
            let mut keep: bool = true;
            if let Some(sb) = since {
                if !str_le(sb, self.sessions[i].session.start_time.as_str()) {
                    keep = false;
                }
            }
            if let Some(ub) = until {
                if !str_lt(self.sessions[i].session.start_time.as_str(), ub) {
                    keep = false;
                }
            }
            proof {
                assert(keep == in_range(rows[i as int].session.start_time, sv, uv));
            }
            if keep {
                let srow = &self.sessions[i];
                out.push(
                    Session {
                        id: srow.session.id.clone(),
                        start_time: srow.session.start_time.clone(),
                        duration_seconds: srow.session.duration_seconds,
                        session_key: srow.session.session_key.clone(),
                    },
                );
            }
            proof {
                let tail = rows.skip(i as int);
                assert(tail[0] == rows[i as int]);
                assert(tail.skip(1) =~= rows.skip(i + 1));
                if keep {
                    assert(out@.map_values(|x: Session| x@) =~= out0.map_values(|x: Session| x@)
                        .push(rows[i as int].session));
                    assert(out0.map_values(|x: Session| x@) + (seq![rows[i as int].session]
                        + sessions_in_range(rows.skip(i + 1), sv, uv)) =~= out@.map_values(
                        |x: Session| x@,
                    ) + sessions_in_range(rows.skip(i + 1), sv, uv));
                }
            }
            i += 1;
        }
        proof {
            assert(rows.skip(n as int).len() == 0);
            assert(out@.map_values(|x: Session| x@) + sessions_in_range(
                rows.skip(n as int),
                sv,
                uv,
            ) =~= out@.map_values(|x: Session| x@));
        }
        out
    }

    /// Inserts a rule for a fresh `(kind, identifier)` key, assigning the
    /// next free id, or — when a row with that key exists — replaces that
    /// row's `label` and `is_active` in place, keeping its id and
    /// `created_at`; either way the row is stamped `updated_at = now`. The
    /// single failure, `OperationFailure`, comes exactly when a fresh key
    /// arrives while the id space is exhausted, and leaves the store
    /// unchanged.
    pub fn upsert_classification_rule_at(&mut self, b: RuleBinding, now: String) -> (r: Result<
        (),
        StorageError,
    >)
        requires
            old(self).wf(),
        ensures
            final(self).wf(),
            r is Ok ==> final(self)@ == upsert_rule_t(old(self)@, b@, now@),
            r is Err ==> final(self)@ == old(self)@ && r == Err::<(), StorageError>(
                StorageError::OperationFailure,
            ),
            (r is Err) == (find_rule_key(old(self)@.rules, b@.kind, b@.identifier) < 0 && old(
                self,
            )@.next_rule_id == i64::MAX as int),
    {
        let ghost v0 = self@;
        let ghost bv = b@;
        let ghost nowv = now@;
        proof {
            lemma_upsert_rule_inv(v0, bv, nowv);
            lemma_find_rule_key(v0.rules, bv.kind, bv.identifier);
        }
        let n: usize = self.rules.len();
        let mut k: usize = 0;
        while k < n && !(self.rules[k].rule.kind == b.kind && self.rules[k].rule.identifier
            == b.identifier)
            invariant
                self@ == v0,
                bv == b@,
                n == self.rules.len(),
                k <= n,
                forall|j: int|
                    0 <= j < k ==> !((#[trigger] v0.rules[j]).rule.kind == bv.kind
                        && v0.rules[j].rule.identifier == bv.identifier),
            decreases n - k,
        {
            k += 1;
        }
        let ghost f = find_rule_key(v0.rules, bv.kind, bv.identifier);
        proof {
            if k < n {
                assert(v0.rules[k as int].rule.kind == bv.kind && v0.rules[k as int].rule.identifier
                    == bv.identifier);
                if f == -1 {
                    assert(!(v0.rules[k as int].rule.kind == bv.kind
                        && v0.rules[k as int].rule.identifier == bv.identifier));
                } else if f < k {
                    assert(!(v0.rules[f].rule.kind == bv.kind && v0.rules[f].rule.identifier
                        == bv.identifier));
                    assert(v0.rules[f].rule.kind == bv.kind && v0.rules[f].rule.identifier
                        == bv.identifier);
                } else if f > k {
                    assert(!(v0.rules[k as int].rule.kind == bv.kind
                        && v0.rules[k as int].rule.identifier == bv.identifier));
                }
                assert(f == k);
            } else {
                if f >= 0 {
                    assert(v0.rules[f].rule.kind == bv.kind && v0.rules[f].rule.identifier
                        == bv.identifier);
                    assert(!(v0.rules[f].rule.kind == bv.kind && v0.rules[f].rule.identifier
                        == bv.identifier));
                }
                assert(f == -1);
            }
        }
        if k < n {
            let new_row = RuleRow {
                rule: ClassificationRule {
                    id: self.rules[k].rule.id,
                    kind: self.rules[k].rule.kind.clone(),
                    identifier: self.rules[k].rule.identifier.clone(),
                    label: b.label,
                    is_active: b.is_active,
                },
                created_at: self.rules[k].created_at.clone(),
                updated_at: now,
            };
            self.rules[k] = new_row;
            proof {
                let prev = v0.rules[f];
                let row_v = RuleRowV {
                    rule: RuleV {
                        id: prev.rule.id,
                        kind: prev.rule.kind,
                        identifier: prev.rule.identifier,
                        label: bv.label,
                        is_active: bv.is_active,
                    },
                    created_at: prev.created_at,
                    updated_at: nowv,
                };
                assert(self@.rules =~= v0.rules.update(f, row_v));
                assert(self@ =~= upsert_rule_t(v0, bv, nowv));
            }
            Ok(())
        } else {
            if self.next_rule_id == i64::MAX {
                return Err(StorageError::OperationFailure);
            }
            proof {
                lemma_rule_insert_pos(v0.rules, bv.kind, bv.identifier);
            }
            let mut p: usize = 0;
            while p < n && rule_key_before(&self.rules[p], b.kind.as_str(), b.identifier.as_str())
                invariant
                    self@ == v0,
                    bv == b@,
                    n == self.rules.len(),
                    p <= n,
                    forall|j: int|
                        0 <= j < p ==> (lex_lt((#[trigger] v0.rules[j]).rule.kind, bv.kind) || (
                        v0.rules[j].rule.kind == bv.kind && lex_le(
                            v0.rules[j].rule.identifier,
                            bv.identifier,
                        ))),
                decreases n - p,
            {
                p += 1;
            }
            let ghost pp = rule_insert_pos(v0.rules, bv.kind, bv.identifier);
            proof {
                if p < n {
                    assert(!(lex_lt(v0.rules[p as int].rule.kind, bv.kind) || (
                    v0.rules[p as int].rule.kind == bv.kind && lex_le(
                        v0.rules[p as int].rule.identifier,
                        bv.identifier,
                    ))));
                }
                if p < pp {
                    assert(lex_lt(v0.rules[p as int].rule.kind, bv.kind) || (
                    v0.rules[p as int].rule.kind == bv.kind && lex_le(
                        v0.rules[p as int].rule.identifier,
                        bv.identifier,
                    )));
                } else if pp < p {
                    assert(lex_lt(v0.rules[pp].rule.kind, bv.kind) || (v0.rules[pp].rule.kind
                        == bv.kind && lex_le(v0.rules[pp].rule.identifier, bv.identifier)));
                    assert(!(lex_lt(v0.rules[pp].rule.kind, bv.kind) || (v0.rules[pp].rule.kind
                        == bv.kind && lex_le(v0.rules[pp].rule.identifier, bv.identifier))));
                }
                assert(p == pp);
            }
            let id: i64 = self.next_rule_id;
            self.next_rule_id = self.next_rule_id + 1;
            let row = RuleRow {
                rule: ClassificationRule {
                    id,
                    kind: b.kind,
                    identifier: b.identifier,
                    label: b.label,
                    is_active: b.is_active,
                },
                created_at: now.clone(),
                updated_at: now,
            };
            self.rules.insert(p, row);
            proof {
                let row_v = RuleRowV {
                    rule: RuleV {
                        id: v0.next_rule_id,
                        kind: bv.kind,
                        identifier: bv.identifier,
                        label: bv.label,
                        is_active: bv.is_active,
                    },
                    created_at: nowv,
                    updated_at: nowv,
                };
                assert(self@.rules =~= v0.rules.insert(pp, row_v));
                assert(self@ =~= upsert_rule_t(v0, bv, nowv));
            }
            Ok(())
        }
    }

    /// Inserts or replaces the rule, stamping it with the clock; the
    /// resulting state is the upsert transition for the stamp that was
    /// read.
    pub fn upsert_classification_rule(&mut self, b: RuleBinding) -> (r: Result<(), StorageError>)
        requires
            old(self).wf(),
        ensures
            final(self).wf(),
            r is Ok ==> exists|t: Seq<char>| final(self)@ == #[trigger] upsert_rule_t(
                old(self)@,
                b@,
                t,
            ),
            r is Err ==> final(self)@ == old(self)@ && r == Err::<(), StorageError>(
                StorageError::OperationFailure,
            ),
            (r is Err) == (find_rule_key(old(self)@.rules, b@.kind, b@.identifier) < 0 && old(
                self,
            )@.next_rule_id == i64::MAX as int),
    {
        let ghost v0 = self@;
        let ghost bv = b@;
        let now = now_utc_iso();
        let ghost nowv = now@;
        let r = self.upsert_classification_rule_at(b, now);
        proof {
            if r is Ok {
                assert(self@ == upsert_rule_t(v0, bv, nowv));
            }
        }
        r
    }

    /// Every stored classification rule — active and inactive alike — in
    /// `(kind, identifier)` order.
    pub fn list_classification_rules(&self) -> (r: Vec<ClassificationRule>)
        requires
            self.wf(),
        ensures
            r@.map_values(|x: ClassificationRule| x@) == self@.rules.map_values(
                |row: RuleRowV| row.rule,
            ),
    {
        let ghost rows = self@.rules;
        let n: usize = self.rules.len();
        let mut out: Vec<ClassificationRule> = Vec::new();
        let mut i: usize = 0;
        while i < n
            invariant
                self@.rules == rows,
                n == self.rules.len(),
                i <= n,
                out@.map_values(|x: ClassificationRule| x@) == rows.map_values(
                    |row: RuleRowV| row.rule,
                ).take(i as int),
            decreases n - i,
        {
            let ghost out0 = out@;
            let row = &self.rules[i];
            out.push(
                ClassificationRule {
                    id: row.rule.id,
                    kind: row.rule.kind.clone(),
                    identifier: row.rule.identifier.clone(),
                    label: row.rule.label,
                    is_active: row.rule.is_active,
                },
            );
            proof {
                let m = rows.map_values(|row: RuleRowV| row.rule);
                assert(m[i as int] == rows[i as int].rule);
                assert(m.take(i + 1) =~= m.take(i as int).push(m[i as int]));
                assert(out@.map_values(|x: ClassificationRule| x@) =~= m.take(i + 1));
            }
            i += 1;
        }
        proof {
            assert(rows.map_values(|row: RuleRowV| row.rule).take(n as int) =~= rows.map_values(
                |row: RuleRowV| row.rule,
            ));
        }
        out
    }

    /// Removes the rule row with this numeric `id`; deleting an absent
    /// `id` succeeds and leaves the store unchanged.
    pub fn delete_classification_rule(&mut self, id: i64)
        requires
            old(self).wf(),
        ensures
            final(self).wf(),
            final(self)@ == delete_rule_t(old(self)@, id as int),
    {
        let ghost v0 = self@;
        proof {
            lemma_delete_rule_inv(v0, id as int);
            lemma_find_rule_id(v0.rules, id as int);
        }
        let n: usize = self.rules.len();
        let mut k: usize = 0;
        while k < n && self.rules[k].rule.id != id
            invariant
                self@ == v0,
                n == self.rules.len(),
                k <= n,
                forall|j: int| 0 <= j < k ==> (#[trigger] v0.rules[j]).rule.id != id as int,
            decreases n - k,
        {
            k += 1;
        }
        let ghost f = find_rule_id(v0.rules, id as int);
        proof {
            if k < n {
                assert(v0.rules[k as int].rule.id == id as int);
                if f == -1 {
                    assert(v0.rules[k as int].rule.id != id as int);
                } else if f < k {
                    assert(v0.rules[f].rule.id != id as int);
                    assert(v0.rules[f].rule.id == id as int);
                } else if f > k {
                    assert(v0.rules[k as int].rule.id != id as int);
                }
                assert(f == k);
            } else {
                if f >= 0 {
                    assert(v0.rules[f].rule.id == id as int);
                    assert(v0.rules[f].rule.id != id as int);
                }
                assert(f == -1);
            }
        }
        if k < n {
            self.rules.remove(k);
            proof {
                assert(self@.rules =~= v0.rules.remove(f));
                assert(self@ =~= delete_rule_t(v0, id as int));
            }
        } else {
            proof {
                assert(self@ =~= delete_rule_t(v0, id as int));
            }
        }
    }

    /// The value stored under `key`, or `None` when the store has no such
    /// setting.
    pub fn get_setting(&self, key: &str) -> (r: Option<String>)
        requires
            self.wf(),
        ensures
            (r is Some) == (get_setting_s(self@, key@) is Some),
            r matches Some(v) ==> get_setting_s(self@, key@) == Some(v@),
    {
        proof {
            lemma_find_setting(self@.settings, key@);
        }
        let n: usize = self.settings.len();
        let mut k: usize = 0;
        while k < n && !str_eq(self.settings[k].key.as_str(), key)
            invariant
                n == self.settings.len(),
                k <= n,
                forall|j: int| 0 <= j < k ==> (#[trigger] self@.settings[j]).key != key@,
            decreases n - k,
        {
            k += 1;
        }
        let ghost f = find_setting(self@.settings, key@);
        if k < n {
            proof {
                assert(self@.settings[k as int].key == key@);
                if f == -1 {
                    assert(self@.settings[k as int].key != key@);
                } else if f < k {
                    assert(self@.settings[f].key != key@);
                    assert(self@.settings[f].key == key@);
                } else if f > k {
                    assert(self@.settings[k as int].key != key@);
                }
                assert(f == k);
            }
            Some(self.settings[k].value.clone())
        } else {
            proof {
                if f >= 0 {
                    assert(self@.settings[f].key == key@);
                    assert(self@.settings[f].key != key@);
                }
                assert(f == -1);
            }
            None
        }
    }

    /// Writes `value` under `key`, replacing the row in place if the key
    /// exists and appending a new row otherwise, stamped `updated_at =
    /// now`.
    pub fn set_setting_at(&mut self, key: String, value: String, now: String)
        requires
            old(self).wf(),
        ensures
            final(self).wf(),
            final(self)@ == set_setting_t(old(self)@, key@, value@, now@),
    {
        let ghost v0 = self@;
        let ghost keyv = key@;
        let ghost valuev = value@;
        let ghost nowv = now@;
        proof {
            lemma_set_setting_inv(v0, keyv, valuev, nowv);
            lemma_find_setting(v0.settings, keyv);
        }
        let n: usize = self.settings.len();
        let mut k: usize = 0;
        while k < n && !str_eq(self.settings[k].key.as_str(), key.as_str())
            invariant
                self@ == v0,
                keyv == key@,
                n == self.settings.len(),
                k <= n,
                forall|j: int| 0 <= j < k ==> (#[trigger] v0.settings[j]).key != keyv,
            decreases n - k,
        {
            k += 1;
        }
        let ghost f = find_setting(v0.settings, keyv);
        proof {
            if k < n {
                assert(v0.settings[k as int].key == keyv);
                if f == -1 {
                    assert(v0.settings[k as int].key != keyv);
                } else if f < k {
                    assert(v0.settings[f].key != keyv);
                    assert(v0.settings[f].key == keyv);
                } else if f > k {
                    assert(v0.settings[k as int].key != keyv);
                }
                assert(f == k);
            } else {
                if f >= 0 {
                    assert(v0.settings[f].key == keyv);
                    assert(v0.settings[f].key != keyv);
                }
                assert(f == -1);
            }
        }
        let row = SettingRow { key, value, updated_at: now };
        if k < n {
            self.settings[k] = row;
            proof {
                let row_v = SettingV { key: keyv, value: valuev, updated_at: nowv };
                assert(self@.settings =~= v0.settings.update(f, row_v));
                assert(self@ =~= set_setting_t(v0, keyv, valuev, nowv));
            }
        } else {
            self.settings.push(row);
            proof {
                let row_v = SettingV { key: keyv, value: valuev, updated_at: nowv };
                assert(self@.settings =~= v0.settings.push(row_v));
                assert(self@ =~= set_setting_t(v0, keyv, valuev, nowv));
            }
        }
    }

    /// Writes `value` under `key`, stamping it with the clock; the
    /// resulting state is the write transition for the stamp that was
    /// read.
    pub fn set_setting(&mut self, key: String, value: String)
        requires
            old(self).wf(),
        ensures
            final(self).wf(),
            exists|t: Seq<char>| final(self)@ == #[trigger] set_setting_t(
                old(self)@,
                key@,
                value@,
                t,
            ),
    {
        let ghost v0 = self@;
        let ghost keyv = key@;
        let ghost valuev = value@;
        let now = now_utc_iso();
        let ghost nowv = now@;
        self.set_setting_at(key, value, now);
        proof {
            assert(self@ == set_setting_t(v0, keyv, valuev, nowv));
        }
    }
}

} // verus!
