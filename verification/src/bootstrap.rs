//! The bootstrap coordinator: computed exactly once per process, before
//! any surface is shown. It decides from two binary signals — is this the
//! first run, was the process launched in background mode — whether the
//! shell should show and focus its main surface or stay hidden in the
//! tray, and marks the store so that every later run counts as a repeat
//! run.

use vstd::prelude::*;
use crate::model::{StoreV, get_setting_s, set_setting_t};
use crate::store::Store;
use crate::text::{contains_seq, contains_pattern};
use crate::laws::lemma_set_then_get;

verus! {

/// What the shell should do with its main surface at startup.
#[derive(Clone, Copy, PartialEq, Eq, Structural, Debug)]
pub enum StartupAction {
    ShowAndFocus,
    StayHidden,
}

/// Whether a launch argument carries an autostart or hidden marker, or the
/// designated environment variable was present (`env_marker`).
pub open spec fn autostart_invocation(args: Seq<Seq<char>>, env_marker: bool) -> bool {
    env_marker || exists|i: int|
        0 <= i < args.len() && (contains_seq(#[trigger] args[i], "--autostart"@) || contains_seq(
            args[i],
            "--hidden"@,
        ))
}

/// Whether this process was launched in background/autostart mode: some
/// launch argument contains `--autostart` or `--hidden`, or the designated
/// environment variable was present (`env_marker`, read by the caller).
pub fn is_autostart_invocation(args: &Vec<String>, env_marker: bool) -> (r: bool)
    ensures
        r == autostart_invocation(args@.map_values(|a: String| a@), env_marker),
{
    let ghost avs = args@.map_values(|a: String| a@);
    if env_marker {
        return true;
    }
    let n: usize = args.len();
    let mut i: usize = 0;
    while i < n
        invariant
            avs == args@.map_values(|a: String| a@),
            n == args.len(),
            i <= n,
            forall|j: int|
                0 <= j < i ==> !(contains_seq(#[trigger] avs[j], "--autostart"@) || contains_seq(
                    avs[j],
                    "--hidden"@,
                )),
        decreases n - i,
    {
        if contains_pattern(args[i].as_str(), "--autostart") || contains_pattern(
            args[i].as_str(),
            "--hidden",
        ) {
            proof {
                assert(contains_seq(avs[i as int], "--autostart"@) || contains_seq(
                    avs[i as int],
                    "--hidden"@,
                ));
            }
            return true;
        }
        i += 1;
    }
    false
}

/// Whether the store has never seen a completed bootstrap: no
/// `has_run_before` setting row exists.
pub open spec fn first_run_s(v: StoreV) -> bool {
    get_setting_s(v, "has_run_before"@) is None
}

/// The startup decision: the surface is shown on the first run regardless
/// of launch mode, and on every ordinary launch; it stays hidden only when
/// a repeat run was launched in background mode.
pub open spec fn startup_action(first_run: bool, autostart: bool) -> StartupAction {
    if first_run || !autostart {
        StartupAction::ShowAndFocus
    } else {
        StartupAction::StayHidden
    }
}

/// Runs the bootstrap decision against the store: determines whether this
/// is the first run, writes the `has_run_before` marker if so (making
/// every later run a repeat run), and returns what the shell should do
/// with its surface. `now` stamps the marker row.
pub fn bootstrap_at(store: &mut Store, autostart: bool, now: String) -> (r: StartupAction)
    requires
        old(store).wf(),
    ensures
        final(store).wf(),
        r == startup_action(first_run_s(old(store)@), autostart),
        final(store)@ == (if first_run_s(old(store)@) {
            set_setting_t(old(store)@, "has_run_before"@, "true"@, now@)
        } else {
            old(store)@
        }),
        !first_run_s(final(store)@),
{
    let marker = store.get_setting("has_run_before");
    let first_run = marker.is_none();
    if first_run {
        store.set_setting_at("has_run_before".to_owned(), "true".to_owned(), now);
        proof {
            lemma_set_then_get(old(store)@, "has_run_before"@, "true"@, now@);
        }
    }
    if first_run || !autostart {
        StartupAction::ShowAndFocus
    } else {
        StartupAction::StayHidden
    }
}

/// Runs the bootstrap decision, stamping the marker with the clock: the
/// decision and the resulting state are those of the stamped transition.
pub fn bootstrap(store: &mut Store, autostart: bool) -> (r: StartupAction)
    requires
        old(store).wf(),
    ensures
        final(store).wf(),
        r == startup_action(first_run_s(old(store)@), autostart),
        !first_run_s(old(store)@) ==> final(store)@ == old(store)@,
        first_run_s(old(store)@) ==> exists|t: Seq<char>| final(store)@ == #[trigger] set_setting_t(
            old(store)@,
            "has_run_before"@,
            "true"@,
            t,
        ),
        !first_run_s(final(store)@),
{
    let ghost v0 = store@;
    let now = crate::store::now_utc_iso();
    let ghost nowv = now@;
    let r = bootstrap_at(store, autostart, now);
    proof {
        if first_run_s(v0) {
            assert(store@ == set_setting_t(v0, "has_run_before"@, "true"@, nowv));
        }
    }
    r
}

} // verus!
