//! Properties of the detector and of the text measures that hold across
//! calls and states.
use vstd::prelude::*;
use crate::detector::{step, edit_step, edit_key, edits_fold, DetectorModel, Severity, max_severity, after_reads, SignalView, bumped, history_of, distinct_states, trips, reads_fold, suggestion, best_redirect_at, resolve_canonical, resolve_window, VersionModel, initial_model, OccKey};
use crate::fingerprint::{lev, lemma_lev_le_max, spec_fingerprint, similar_at_least, spec_edit_ratio};
use crate::assoc::{assoc_get, assoc_set, assoc_remove, assoc_index, first_key_at, lemma_assoc_index_at, lemma_assoc_index_none};
use crate::model::{EditView, ObservationKind, TurnView};
use crate::text::{normalized, contains_seq, occurs_at, std_lowercase, join_seqs};
use crate::tui::words;
use crate::anthropic::{messages_fold, message_step, spec_extract_turns, messages_of, spec_inject, system_message_json, spec_analyze_turns, run};
use crate::json::{JsonView, member};
use crate::proxy::{spec_forward_headers, headers_fold, header_step, dropped_header, ascii_lower};
use crate::intervention::{intervention_message};

verus! {

/// Reformatting alone does not change a fingerprint: bodies with the same
/// whitespace-normalised form have the same fingerprint.
pub proof fn law_fingerprint_ignores_layout(a: Seq<char>, b: Seq<char>)
    requires
        normalized(a) == normalized(b),
    ensures
        spec_fingerprint(a) == spec_fingerprint(b),
{
}

/// The edit distance from a sequence to itself is zero.
pub proof fn law_lev_self(a: Seq<char>)
    ensures
        lev(a, a) == 0,
    decreases a.len(),
{
    if a.len() > 0 {
        law_lev_self(a.drop_last());
    }
}

/// The edit distance is symmetric.
pub proof fn law_lev_symmetric(a: Seq<char>, b: Seq<char>)
    ensures
        lev(a, b) == lev(b, a),
    decreases a.len() + b.len(),
{
    if a.len() > 0 && b.len() > 0 {
        law_lev_symmetric(a.drop_last(), b);
        law_lev_symmetric(a, b.drop_last());
        law_lev_symmetric(a.drop_last(), b.drop_last());
    }
}

/// Distance zero means the sequences are equal.
pub proof fn law_lev_zero_iff_equal(a: Seq<char>, b: Seq<char>)
    ensures
        (lev(a, b) == 0) == (a == b),
    decreases a.len() + b.len(),
{
    if a == b {
        law_lev_self(a);
    } else if a.len() > 0 && b.len() > 0 {
        law_lev_zero_iff_equal(a.drop_last(), b.drop_last());
        if lev(a, b) == 0 {
            assert(a.drop_last() == b.drop_last());
            assert(a.last() == b.last());
            assert(a =~= a.drop_last().push(a.last()));
            assert(b =~= b.drop_last().push(b.last()));
        }
    } else if a.len() == 0 && b.len() == 0 {
        assert(a =~= b);
    }
}

/// Identical normalised bodies are similar at any threshold up to 100%.
pub proof fn law_same_body_is_similar(a: Seq<char>, b: Seq<char>, threshold: nat)
    requires
        normalized(a) == normalized(b),
        threshold <= 10000,
    ensures
        similar_at_least(a, b, threshold),
{
    law_lev_self(normalized(a));
    let m = spec_edit_ratio(a, b).1;
    assert(m * 10000 >= threshold * m) by (nonlinear_arith)
        requires threshold <= 10000;
}

/// Severity `Okay` everywhere makes the maximum `Okay`.
proof fn lemma_all_okay_max(sigs: Seq<SignalView>)
    requires
        forall|i: int| 0 <= i < sigs.len() ==> sigs[i].severity == Severity::Okay,
    ensures
        max_severity(sigs) == Severity::Okay,
    decreases sigs.len(),
{
    if sigs.len() > 0 {
        lemma_all_okay_max(sigs.drop_last());
    }
}

/// The maximum severity is `Trip` exactly when some signal tripped.
proof fn lemma_max_is_trip(sigs: Seq<SignalView>)
    ensures
        (max_severity(sigs) == Severity::Trip) == (exists|i: int| 0 <= i < sigs.len() && sigs[i].severity == Severity::Trip),
    decreases sigs.len(),
{
    if sigs.len() > 0 {
        let p = sigs.drop_last();
        lemma_max_is_trip(p);
        if exists|i: int| 0 <= i < p.len() && p[i].severity == Severity::Trip {
            let i = choose|i: int| 0 <= i < p.len() && p[i].severity == Severity::Trip;
            assert(sigs[i] == p[i]);
        }
        if exists|i: int| 0 <= i < sigs.len() && sigs[i].severity == Severity::Trip {
            let i = choose|i: int| 0 <= i < sigs.len() && sigs[i].severity == Severity::Trip;
            if i < sigs.len() - 1 {
                assert(p[i] == sigs[i]);
            }
        }
    }
}

proof fn lemma_fold_passing(m: DetectorModel, idx: nat, kind: ObservationKind, sig: Seq<char>, edits: Seq<EditView>)
    requires
        kind != ObservationKind::Error,
    ensures
        forall|i: int| 0 <= i < edits_fold(m, idx, kind, sig, edits).1.len()
            ==> (#[trigger] edits_fold(m, idx, kind, sig, edits).1[i]).severity == Severity::Okay,
        edits_fold(m, idx, kind, sig, edits).0.tripped == m.tripped,
        edits_fold(m, idx, kind, sig, edits).1.len() == edits.len(),
    decreases edits.len(),
{
    if edits.len() > 0 {
        lemma_fold_passing(m, idx, kind, sig, edits.drop_last());
    }
}

/// Reaching a state with a passing (or neutral) outcome is never a loop:
/// such a turn has severity `Okay`, no intervention, and trips no key.
pub proof fn law_only_failures_warn_or_trip(m: DetectorModel, t: TurnView)
    requires
        t.kind != ObservationKind::Error,
    ensures
        step(m, t).1.severity == Severity::Okay,
        step(m, t).1.intervention is None,
        step(m, t).0.tripped == m.tripped,
        forall|i: int| 0 <= i < step(m, t).1.signals.len() ==> (#[trigger] step(m, t).1.signals[i]).severity == Severity::Okay,
{
    let m1 = after_reads(m, t);
    lemma_fold_passing(m1, m.turn_index, t.kind, t.signature, t.edits);
    lemma_all_okay_max(edits_fold(m1, m.turn_index, t.kind, t.signature, t.edits).1);
}

/// A verdict carries an intervention exactly when its severity is `Trip`,
/// which is exactly when one of its signals tripped; its signals are one per
/// edit, and it is numbered by the turns ingested before it.
pub proof fn law_verdict_shape(m: DetectorModel, t: TurnView)
    ensures
        (step(m, t).1.intervention is Some) == (step(m, t).1.severity == Severity::Trip),
        (step(m, t).1.severity == Severity::Trip) == (exists|i: int|
            0 <= i < step(m, t).1.signals.len() && step(m, t).1.signals[i].severity == Severity::Trip),
        step(m, t).1.signals.len() == t.edits.len(),
        step(m, t).1.turn_index == m.turn_index,
        step(m, t).0.turn_index == m.turn_index + 1,
{
    let m1 = after_reads(m, t);
    lemma_max_is_trip(edits_fold(m1, m.turn_index, t.kind, t.signature, t.edits).1);
    lemma_fold_len(m1, m.turn_index, t.kind, t.signature, t.edits);
}

proof fn lemma_fold_len(m: DetectorModel, idx: nat, kind: ObservationKind, sig: Seq<char>, edits: Seq<EditView>)
    ensures
        edits_fold(m, idx, kind, sig, edits).1.len() == edits.len(),
        edits_fold(m, idx, kind, sig, edits).0.turn_index == m.turn_index,
        edits_fold(m, idx, kind, sig, edits).0.policy == m.policy,
        m.tripped.subset_of(edits_fold(m, idx, kind, sig, edits).0.tripped),
    decreases edits.len(),
{
    if edits.len() > 0 {
        lemma_fold_len(m, idx, kind, sig, edits.drop_last());
    }
}

/// Once a key has tripped it stays tripped: the set of tripped keys only grows.
pub proof fn law_tripped_keys_persist(m: DetectorModel, t: TurnView)
    ensures
        m.tripped.subset_of(step(m, t).0.tripped),
        step(m, t).0.policy == m.policy,
{
    lemma_fold_len(after_reads(m, t), m.turn_index, t.kind, t.signature, t.edits);
}

/// An edit trips only on a key that has not tripped before, and records it:
/// with the keys persisting, a given `(file, state, error)` trips at most once.
pub proof fn law_trip_once_per_key(m: DetectorModel, idx: nat, kind: ObservationKind, sig: Seq<char>, e: EditView)
    ensures
        edit_step(m, idx, kind, sig, e).1.severity == Severity::Trip ==> {
            &&& !m.tripped.contains(edit_key(m, sig, e))
            &&& edit_step(m, idx, kind, sig, e).0.tripped.contains(edit_key(m, sig, e))
        },
        m.tripped.contains(edit_key(m, sig, e)) ==> edit_step(m, idx, kind, sig, e).1.severity != Severity::Trip,
{
}

/// Graduated response: a failing key warns from `warn_at` occurrences and
/// trips on reaching `trip_at` the first time; nothing else is flagged. The
/// count of the edited key rises by one and keeps the turn it was first seen.
pub proof fn law_thresholds(m: DetectorModel, idx: nat, kind: ObservationKind, sig: Seq<char>, e: EditView)
    ensures
        ({
            let (m2, s) = edit_step(m, idx, kind, sig, e);
            let key = edit_key(m, sig, e);
            &&& (kind == ObservationKind::Error && s.occurrences >= m.policy.trip_at && !m.tripped.contains(key))
                ==> s.severity == Severity::Trip
            &&& (kind == ObservationKind::Error && s.occurrences >= m.policy.warn_at) ==> s.severity != Severity::Okay
            &&& s.severity == Severity::Warn ==> kind == ObservationKind::Error && s.occurrences >= m.policy.warn_at
            &&& s.severity == Severity::Trip ==> kind == ObservationKind::Error && s.occurrences >= m.policy.trip_at
            &&& s.occurrences == match assoc_get(m.occurrences, key) {
                Some(cf) => cf.0 + 1,
                None => 1,
            }
            &&& assoc_get(m2.occurrences, key) == Some(bumped(m, key, idx))
            &&& (s.first_seen_turn is Some) == (s.occurrences > 1)
        }),
{
    let key = edit_key(m, sig, e);
    lemma_assoc_set_get(m.occurrences, key, bumped(m, key, idx));
}

/// After setting `k`, looking `k` up gives the value set.
pub proof fn lemma_assoc_set_get<K, V>(s: Seq<(K, V)>, k: K, v: V)
    ensures
        assoc_get(assoc_set(s, k, v), k) == Some(v),
{
    let i = assoc_index(s, k);
    let s2 = assoc_set(s, k, v);
    if 0 <= i {
        assert(first_key_at(s, k, i));
        assert(first_key_at(s2, k, i)) by {
            assert forall|j: int| 0 <= j < i implies s2[j].0 != k by {
                assert(s2[j] == s[j]);
            }
        }
        lemma_assoc_index_at(s2, k, i);
    } else {
        assert(!exists|j: int| first_key_at(s, k, j));
        assert forall|j: int| 0 <= j < s.len() implies s[j].0 != k by {
            if s[j].0 == k {
                lemma_some_first(s, k, j);
            }
        }
        let n = s.len() as int;
        assert(first_key_at(s2, k, n)) by {
            assert forall|j: int| 0 <= j < n implies s2[j].0 != k by {
                assert(s2[j] == s[j]);
            }
        }
        lemma_assoc_index_at(s2, k, n);
    }
}

/// If `k` occurs anywhere, it has a first occurrence.
proof fn lemma_some_first<K, V>(s: Seq<(K, V)>, k: K, j: int)
    requires
        0 <= j < s.len(),
        s[j].0 == k,
    ensures
        exists|i: int| first_key_at(s, k, i),
    decreases j,
{
    if exists|i: int| 0 <= i < j && s[i].0 == k {
        let i = choose|i: int| 0 <= i < j && s[i].0 == k;
        lemma_some_first(s, k, i);
    } else {
        assert(first_key_at(s, k, j));
    }
}

/// No key occurs twice.
pub open spec fn keys_unique<K, V>(s: Seq<(K, V)>) -> bool {
    forall|i: int, j: int| 0 <= i < j < s.len() ==> s[i].0 != s[j].0
}

/// The read-only list names each file once and never an edited file.
pub open spec fn read_only_sound(m: DetectorModel) -> bool {
    &&& keys_unique(m.read_only)
    &&& forall|i: int| 0 <= i < m.read_only.len() ==> !m.edited.contains(#[trigger] m.read_only[i].0)
}

proof fn lemma_absent<K, V>(s: Seq<(K, V)>, k: K)
    requires
        assoc_index(s, k) < 0,
    ensures
        forall|j: int| 0 <= j < s.len() ==> s[j].0 != k,
{
    assert forall|j: int| 0 <= j < s.len() implies s[j].0 != k by {
        if s[j].0 == k {
            lemma_some_first(s, k, j);
        }
    }
}

proof fn lemma_index_found<K, V>(s: Seq<(K, V)>, k: K)
    requires
        assoc_index(s, k) >= 0,
    ensures
        0 <= assoc_index(s, k) < s.len(),
        s[assoc_index(s, k)].0 == k,
{
    let c = choose|c: int| first_key_at(s, k, c);
    assert(first_key_at(s, k, c));
}

/// Setting a key keeps keys unique; the keys are the old ones and `k`.
pub proof fn lemma_assoc_set_keys<K, V>(s: Seq<(K, V)>, k: K, v: V)
    requires
        keys_unique(s),
    ensures
        keys_unique(assoc_set(s, k, v)),
        forall|j: int| 0 <= j < assoc_set(s, k, v).len() ==> #[trigger] assoc_set(s, k, v)[j].0 == k
            || exists|i: int| 0 <= i < s.len() && s[i].0 == assoc_set(s, k, v)[j].0,
{
    let s2 = assoc_set(s, k, v);
    if assoc_index(s, k) >= 0 {
        lemma_index_found(s, k);
        let i = assoc_index(s, k);
        assert forall|a: int, b: int| 0 <= a < b < s2.len() implies s2[a].0 != s2[b].0 by {
            assert(s2[a].0 == s[a].0);
            assert(s2[b].0 == s[b].0);
        }
        assert forall|j: int| 0 <= j < s2.len() implies #[trigger] s2[j].0 == k
            || exists|i: int| 0 <= i < s.len() && s[i].0 == s2[j].0 by {
            assert(s2[j].0 == s[j].0);
        }
    } else {
        lemma_absent(s, k);
        assert forall|a: int, b: int| 0 <= a < b < s2.len() implies s2[a].0 != s2[b].0 by {
            if b < s.len() {
                assert(s2[a] == s[a]);
                assert(s2[b] == s[b]);
            } else {
                assert(s2[a] == s[a]);
            }
        }
        assert forall|j: int| 0 <= j < s2.len() implies #[trigger] s2[j].0 == k
            || exists|i: int| 0 <= i < s.len() && s[i].0 == s2[j].0 by {
            if j < s.len() {
                assert(s2[j] == s[j]);
            }
        }
    }
}

/// Removing a key from a list of unique keys leaves no entry with that key.
pub proof fn lemma_assoc_remove_keys<K, V>(s: Seq<(K, V)>, k: K)
    requires
        keys_unique(s),
    ensures
        keys_unique(assoc_remove(s, k)),
        forall|j: int| 0 <= j < assoc_remove(s, k).len() ==> #[trigger] assoc_remove(s, k)[j].0 != k
            && exists|i: int| 0 <= i < s.len() && s[i].0 == assoc_remove(s, k)[j].0,
{
    let s2 = assoc_remove(s, k);
    if assoc_index(s, k) >= 0 {
        lemma_index_found(s, k);
        let i = assoc_index(s, k);
        assert forall|a: int, b: int| 0 <= a < b < s2.len() implies s2[a].0 != s2[b].0 by {
            let a0 = if a < i { a } else { a + 1 };
            let b0 = if b < i { b } else { b + 1 };
            assert(s2[a] == s[a0]);
            assert(s2[b] == s[b0]);
        }
        assert forall|j: int| 0 <= j < s2.len() implies #[trigger] s2[j].0 != k
            && exists|i: int| 0 <= i < s.len() && s[i].0 == s2[j].0 by {
            let j0 = if j < i { j } else { j + 1 };
            assert(s2[j] == s[j0]);
            assert(j0 != i);
        }
    } else {
        lemma_absent(s, k);
        assert forall|j: int| 0 <= j < s2.len() implies #[trigger] s2[j].0 != k
            && exists|i: int| 0 <= i < s.len() && s[i].0 == s2[j].0 by {
            assert(s2[j] == s[j]);
        }
    }
}

proof fn lemma_reads_sound(ro: Seq<(Seq<char>, nat)>, edited: Set<Seq<char>>, reads: Seq<Seq<char>>)
    requires
        keys_unique(ro),
        forall|i: int| 0 <= i < ro.len() ==> !edited.contains(#[trigger] ro[i].0),
    ensures
        keys_unique(reads_fold(ro, edited, reads)),
        forall|i: int| 0 <= i < reads_fold(ro, edited, reads).len()
            ==> !edited.contains(#[trigger] reads_fold(ro, edited, reads)[i].0),
    decreases reads.len(),
{
    if reads.len() > 0 {
        lemma_reads_sound(ro, edited, reads.drop_last());
        let r0 = reads_fold(ro, edited, reads.drop_last());
        let r = reads.last();
        if !edited.contains(r) {
            let c = match assoc_get(r0, r) {
                Some(c) => c,
                None => 0,
            };
            lemma_assoc_set_keys(r0, r, c + 1);
            let r1 = assoc_set(r0, r, c + 1);
            assert forall|i: int| 0 <= i < r1.len() implies !edited.contains(#[trigger] r1[i].0) by {
                if r1[i].0 != r {
                    let j = choose|j: int| 0 <= j < r0.len() && r0[j].0 == r1[i].0;
                    assert(!edited.contains(r0[j].0));
                }
            }
        }
    }
}

proof fn lemma_fold_sound(m: DetectorModel, idx: nat, kind: ObservationKind, sig: Seq<char>, edits: Seq<EditView>)
    requires
        read_only_sound(m),
    ensures
        read_only_sound(edits_fold(m, idx, kind, sig, edits).0),
    decreases edits.len(),
{
    if edits.len() > 0 {
        lemma_fold_sound(m, idx, kind, sig, edits.drop_last());
        let m1 = edits_fold(m, idx, kind, sig, edits.drop_last()).0;
        let e = edits.last();
        let m2 = edit_step(m1, idx, kind, sig, e).0;
        lemma_assoc_remove_keys(m1.read_only, e.path);
        assert forall|i: int| 0 <= i < m2.read_only.len() implies !m2.edited.contains(#[trigger] m2.read_only[i].0) by {
            let j = choose|j: int| 0 <= j < m1.read_only.len() && m1.read_only[j].0 == m2.read_only[i].0;
            assert(!m1.edited.contains(m1.read_only[j].0));
        }
    }
}

/// A fresh detector's read-only list is sound.
pub proof fn law_initial_read_only_sound(policy: crate::policy::ThrashPolicy)
    ensures
        read_only_sound(initial_model(policy)),
{
}

/// Every turn keeps the read-only list sound: each file appears once, and a
/// file leaves the list for good once it is edited.
pub proof fn law_read_only_sound_preserved(m: DetectorModel, t: TurnView)
    requires
        read_only_sound(m),
    ensures
        read_only_sound(step(m, t).0),
{
    lemma_reads_sound(m.read_only, m.edited, t.reads);
    let m1 = after_reads(m, t);
    lemma_fold_sound(m1, m.turn_index, t.kind, t.signature, t.edits);
}

/// The redirect target is a read-only file other than the thrashed one, and
/// none of the other candidates has been read more often.
pub proof fn law_suggestion_is_most_read_other_file(ro: Seq<(Seq<char>, nat)>, thrashed: Seq<char>)
    ensures
        suggestion(ro, thrashed) matches Some(p) ==> {
            &&& p != thrashed
            &&& exists|i: int| #![trigger ro[i]] 0 <= i < ro.len() && ro[i].0 == p
                && forall|j: int| 0 <= j < ro.len() && ro[j].0 != thrashed ==> ro[j].1 <= ro[i].1
        },
        suggestion(ro, thrashed) is None ==> forall|j: int| 0 <= j < ro.len() ==> ro[j].0 == thrashed,
{
    if exists|i: int| best_redirect_at(ro, thrashed, i) {
        let i = choose|i: int| best_redirect_at(ro, thrashed, i);
        assert(best_redirect_at(ro, thrashed, i));
    } else {
        assert forall|j: int| 0 <= j < ro.len() implies ro[j].0 == thrashed by {
            if ro[j].0 != thrashed {
                lemma_best_exists(ro, thrashed, j);
            }
        }
    }
}

/// A candidate exists, so a best one does.
proof fn lemma_best_exists(ro: Seq<(Seq<char>, nat)>, thrashed: Seq<char>, j: int)
    requires
        0 <= j < ro.len(),
        ro[j].0 != thrashed,
    ensures
        exists|i: int| best_redirect_at(ro, thrashed, i),
{
    // The first candidate with the largest count among all candidates.
    let b = best_of_prefix(ro, thrashed, ro.len() as int);
    lemma_best_of_prefix(ro, thrashed, ro.len() as int, j);
    assert(best_redirect_at(ro, thrashed, b));
}

spec fn best_of_prefix(ro: Seq<(Seq<char>, nat)>, t: Seq<char>, n: int) -> int
    decreases n,
{
    if n <= 0 {
        -1
    } else {
        let b = best_of_prefix(ro, t, n - 1);
        if ro[n - 1].0 != t && (b < 0 || ro[n - 1].1 > ro[b].1) { n - 1 } else { b }
    }
}

proof fn lemma_best_of_prefix(ro: Seq<(Seq<char>, nat)>, t: Seq<char>, n: int, j: int)
    requires
        0 <= n <= ro.len(),
    ensures
        best_of_prefix(ro, t, n) < n,
        best_of_prefix(ro, t, n) < 0 ==> forall|k: int| 0 <= k < n ==> ro[k].0 == t,
        best_of_prefix(ro, t, n) >= 0 ==> {
            let b = best_of_prefix(ro, t, n);
            &&& ro[b].0 != t
            &&& forall|k: int| 0 <= k < n && ro[k].0 != t ==> ro[k].1 <= ro[b].1
            &&& forall|k: int| 0 <= k < b && ro[k].0 != t ==> ro[k].1 < ro[b].1
        },
    decreases n,
{
    if n > 0 {
        lemma_best_of_prefix(ro, t, n - 1, j);
        let b = best_of_prefix(ro, t, n - 1);
        if b >= 0 {
            assert(ro[b].0 != t);
        }
    }
}

/// The note names the thrashed file, and the suggested file when there is one.
pub proof fn law_message_names_files(file: Seq<char>, sig: Seq<char>, n: nat, sugg: Option<Seq<char>>)
    ensures
        contains_seq(intervention_message(file, sig, n, sugg), file),
        sugg matches Some(p) ==> contains_seq(intervention_message(file, sig, n, sugg), p),
{
    let msg = intervention_message(file, sig, n, sugg);
    let a = "System note: the edit just applied to `"@;
    assert(msg.subrange(a.len() as int, (a.len() + file.len()) as int) =~= file);
    assert(occurs_at(msg, file, a.len() as int));
    match sugg {
        Some(p) => {
            let head = "System note: the edit just applied to `"@ + file
                + "` is the same change already attempted "@ + crate::text::decimal(n)
                + " times in this session, and it reproduces the same failure ("@
                + crate::intervention::spec_trim_signature(sig)
                + "). The root cause is unlikely to live in `"@ + file + "`."@;
            let pre = head + " Before editing `"@ + file + "` again, inspect `"@;
            assert(msg.subrange(pre.len() as int, (pre.len() + p.len()) as int) =~= p);
            assert(occurs_at(msg, p, pre.len() as int));
        },
        None => {},
    }
}

/// On a trip the note names the thrashed file and quotes the turn's error
/// signature; any suggested file is another file, read but never edited, and
/// is named in the note too.
pub proof fn law_intervention_targets(m: DetectorModel, t: TurnView)
    requires
        read_only_sound(m),
    ensures
        step(m, t).1.intervention matches Some(iv) ==> {
            &&& contains_seq(iv.system_message, iv.thrashed_file)
            &&& iv.error_signature == t.signature
            &&& iv.suggested_file matches Some(p) ==> {
                &&& p != iv.thrashed_file
                &&& !step(m, t).0.edited.contains(p)
                &&& contains_seq(iv.system_message, p)
            }
        },
{
    law_read_only_sound_preserved(m, t);
    let m2 = step(m, t).0;
    let v = step(m, t).1;
    if v.intervention is Some {
        let iv = v.intervention->0;
        law_message_names_files(iv.thrashed_file, iv.error_signature, iv.occurrences, iv.suggested_file);
        law_suggestion_is_most_read_other_file(m2.read_only, iv.thrashed_file);
        if iv.suggested_file is Some {
            let p = iv.suggested_file->0;
            let i = choose|i: int| #![trigger m2.read_only[i]] 0 <= i < m2.read_only.len() && m2.read_only[i].0 == p
                && forall|j: int| 0 <= j < m2.read_only.len() && m2.read_only[j].0 != iv.thrashed_file ==> m2.read_only[j].1 <= m2.read_only[i].1;
            assert(!m2.edited.contains(m2.read_only[i].0));
        }
    }
}

proof fn lemma_window_match(w: Seq<VersionModel>, fp: u64, content: Seq<char>, thr: nat, j: int)
    requires
        0 <= j < w.len(),
        similar_at_least(w[j].content, content, thr),
    ensures
        exists|k: int| 0 <= k < w.len() && resolve_window(w, fp, content, thr) == w[k].canonical,
    decreases w.len(),
{
    let v = w.last();
    if v.canonical == fp || similar_at_least(v.content, content, thr) {
        assert(resolve_window(w, fp, content, thr) == w[w.len() - 1].canonical);
    } else {
        let p = w.drop_last();
        assert(j < w.len() - 1);
        assert(p[j] == w[j]);
        lemma_window_match(p, fp, content, thr, j);
        let k = choose|k: int| 0 <= k < p.len() && resolve_window(p, fp, content, thr) == p[k].canonical;
        assert(p[k] == w[k]);
    }
}

proof fn lemma_window_fresh(w: Seq<VersionModel>, fp: u64, content: Seq<char>, thr: nat)
    requires
        forall|k: int| 0 <= k < w.len() ==> w[k].canonical != fp && !similar_at_least(w[k].content, content, thr),
    ensures
        resolve_window(w, fp, content, thr) == fp,
    decreases w.len(),
{
    if w.len() > 0 {
        let p = w.drop_last();
        assert forall|k: int| 0 <= k < p.len() implies p[k].canonical != fp && !similar_at_least(p[k].content, content, thr) by {
            assert(p[k] == w[k]);
        }
        lemma_window_fresh(p, fp, content, thr);
    }
}

/// The first of the last `lookback` versions of a history.
pub open spec fn window_start(hist: Seq<VersionModel>, policy: crate::policy::ThrashPolicy) -> int {
    if hist.len() >= policy.lookback { hist.len() - policy.lookback } else { 0 }
}

/// Cosmetic churn folds into one state: when one of the last `lookback`
/// versions is similar enough to a new write, the write takes the state id of
/// one of those versions.
pub proof fn law_near_duplicate_reuses_state(hist: Seq<VersionModel>, policy: crate::policy::ThrashPolicy, content: Seq<char>, j: int)
    requires
        window_start(hist, policy) <= j < hist.len(),
        similar_at_least(hist[j].content, content, policy.similarity_threshold as nat),
    ensures
        exists|k: int| window_start(hist, policy) <= k < hist.len()
            && resolve_canonical(hist, policy, content) == #[trigger] hist[k].canonical,
{
    let start = window_start(hist, policy);
    let thr = policy.similarity_threshold as nat;
    let w = hist.subrange(start, hist.len() as int);
    let fp = spec_fingerprint(content);
    assert(resolve_canonical(hist, policy, content) == resolve_window(w, fp, content, thr));
    assert(w[j - start] == hist[j]);
    lemma_window_match(w, fp, content, thr, j - start);
    let k = choose|k: int| 0 <= k < w.len() && resolve_window(w, fp, content, thr) == w[k].canonical;
    assert(w[k] == hist[k + start]);
    assert(resolve_canonical(hist, policy, content) == hist[k + start].canonical);
}

/// A write like none of the last `lookback` versions, and sharing no
/// fingerprint with them, is a new state: its fingerprint is its id.
pub proof fn law_fresh_write_is_new_state(hist: Seq<VersionModel>, policy: crate::policy::ThrashPolicy, content: Seq<char>)
    requires
        forall|j: int| window_start(hist, policy) <= j < hist.len() ==> #[trigger] hist[j].canonical != spec_fingerprint(content)
            && !similar_at_least(hist[j].content, content, policy.similarity_threshold as nat),
    ensures
        resolve_canonical(hist, policy, content) == spec_fingerprint(content),
{
    let start = window_start(hist, policy);
    let thr = policy.similarity_threshold as nat;
    let w = hist.subrange(start, hist.len() as int);
    let fp = spec_fingerprint(content);
    assert(resolve_canonical(hist, policy, content) == resolve_window(w, fp, content, thr));
    assert forall|k: int| 0 <= k < w.len() implies w[k].canonical != fp && !similar_at_least(w[k].content, content, thr) by {
        assert(w[k] == hist[k + start]);
    }
    lemma_window_fresh(w, fp, content, thr);
}

proof fn lemma_fold_closes_on_outcomes(msgs: Seq<JsonView>)
    ensures
        forall|i: int| 0 <= i < messages_fold(msgs).0.len()
            ==> (#[trigger] messages_fold(msgs).0[i]).kind != ObservationKind::Neutral,
    decreases msgs.len(),
{
    if msgs.len() > 0 {
        lemma_fold_closes_on_outcomes(msgs.drop_last());
        let acc = messages_fold(msgs.drop_last());
        let r = message_step(acc, msgs.last());
        assert forall|i: int| 0 <= i < r.0.len() implies (#[trigger] r.0[i]).kind != ObservationKind::Neutral by {
            if i < acc.0.len() {
                assert(r.0[i] == acc.0[i]);
            }
        }
    }
}

/// Neutral acknowledgements never close a turn: every extracted turn ends in
/// an error or a success.
pub proof fn law_turns_end_in_real_outcomes(body: JsonView)
    ensures
        forall|i: int| 0 <= i < spec_extract_turns(body).len()
            ==> (#[trigger] spec_extract_turns(body)[i]).kind != ObservationKind::Neutral,
{
    lemma_fold_closes_on_outcomes(messages_of(body));
}

/// A conversation without turns never gets a note.
pub proof fn law_no_turns_no_note(policy: crate::policy::ThrashPolicy)
    ensures
        spec_analyze_turns(Seq::empty(), policy) is None,
{
}

/// The note is given exactly for a trip of the last turn replayed from a
/// fresh detector.
pub proof fn law_analysis_is_the_last_verdict(ts: Seq<TurnView>, policy: crate::policy::ThrashPolicy)
    requires
        ts.len() > 0,
    ensures
        (spec_analyze_turns(ts, policy) is Some) == (step(run(crate::detector::initial_model(policy), ts.drop_last()), ts.last()).1.severity == Severity::Trip),
{
    law_verdict_shape(run(crate::detector::initial_model(policy), ts.drop_last()), ts.last());
}

/// Keys after a set are the old keys and the set key.
proof fn lemma_assoc_set_key_origin<K, V>(s: Seq<(K, V)>, k: K, v: V, j: int)
    requires
        0 <= j < assoc_set(s, k, v).len(),
    ensures
        assoc_set(s, k, v)[j].0 == k || (j < s.len() && assoc_set(s, k, v)[j].0 == s[j].0),
{
}

/// Injection touches only the `messages` array of an object body, and only
/// by appending one `role: "system"` message carrying the note; every other
/// member is as it was.
pub proof fn law_inject_appends_one_system_message(body: JsonView, msg: Seq<char>, key: Seq<char>)
    ensures
        member(body, "messages"@) matches Some(JsonView::Array(a))
            ==> member(spec_inject(body, msg), "messages"@) == Some(JsonView::Array(a.push(system_message_json(msg)))),
        !(member(body, "messages"@) matches Some(JsonView::Array(_))) ==> spec_inject(body, msg) == body,
        key != "messages"@ ==> member(spec_inject(body, msg), key) == member(body, key),
{
    match body {
        JsonView::Object(es) => {
            let i = assoc_index(es, "messages"@);
            if 0 <= i {
                let c = choose|c: int| first_key_at(es, "messages"@, c);
                assert(first_key_at(es, "messages"@, c));
                match es[i].1 {
                    JsonView::Array(a) => {
                        let es2 = es.update(i, ("messages"@, JsonView::Array(a.push(system_message_json(msg)))));
                        assert(first_key_at(es2, "messages"@, i)) by {
                            assert forall|j: int| 0 <= j < i implies es2[j].0 != "messages"@ by {
                                assert(es2[j] == es[j]);
                            }
                        }
                        lemma_assoc_index_at(es2, "messages"@, i);
                        if key != "messages"@ {
                            lemma_same_key_index(es, es2, key);
                        }
                    },
                    _ => {},
                }
            }
        },
        _ => {},
    }
}

/// Two lists that agree everywhere except at positions holding another key
/// find `key` at the same place.
proof fn lemma_same_key_index<V>(s: Seq<(Seq<char>, V)>, t: Seq<(Seq<char>, V)>, key: Seq<char>)
    requires
        s.len() == t.len(),
        forall|j: int| 0 <= j < s.len() ==> s[j].0 == t[j].0,
        forall|j: int| 0 <= j < s.len() && s[j].0 == key ==> s[j] == t[j],
    ensures
        assoc_get(s, key) == assoc_get(t, key),
{
    if exists|i: int| first_key_at(s, key, i) {
        let i = choose|i: int| first_key_at(s, key, i);
        assert(first_key_at(t, key, i));
        lemma_assoc_index_at(s, key, i);
        lemma_assoc_index_at(t, key, i);
    } else {
        assert forall|j: int| 0 <= j < t.len() implies t[j].0 != key by {
            if t[j].0 == key {
                assert(s[j].0 == key);
                lemma_some_first(s, key, j);
            }
        }
        crate::assoc::lemma_assoc_index_none(t, key);
        assert forall|j: int| 0 <= j < s.len() implies s[j].0 != key by {
            if s[j].0 == key {
                lemma_some_first(s, key, j);
            }
        }
        crate::assoc::lemma_assoc_index_none(s, key);
    }
}

proof fn lemma_headers_fold_keys(hs: Seq<(Seq<char>, Seq<u8>)>)
    ensures
        forall|j: int| 0 <= j < headers_fold(hs).0.len() ==> {
            let n = ascii_lower(#[trigger] headers_fold(hs).0[j].0);
            !dropped_header(n) && n != "anthropic-beta"@
        },
    decreases hs.len(),
{
    if hs.len() > 0 {
        lemma_headers_fold_keys(hs.drop_last());
        let acc = headers_fold(hs.drop_last());
        let h = hs.last();
        let r = header_step(acc, h);
        assert forall|j: int| 0 <= j < r.0.len() implies {
            let n = ascii_lower(#[trigger] r.0[j].0);
            !dropped_header(n) && n != "anthropic-beta"@
        } by {
            let n = ascii_lower(h.0);
            if !dropped_header(n) && n != "anthropic-beta"@ {
                lemma_assoc_set_key_origin(acc.0, h.0, h.1, j);
                if j < acc.0.len() && r.0[j].0 == acc.0[j].0 {
                    assert(acc.0[j].0 == r.0[j].0);
                }
            }
        }
    }
}

/// Hop-by-hop and client-managed headers never go upstream, and every other
/// incoming beta header is folded into the single merged `anthropic-beta`.
pub proof fn law_forwarded_headers_are_clean(hs: Seq<(Seq<char>, Seq<u8>)>, add_beta: bool)
    ensures
        forall|j: int| 0 <= j < spec_forward_headers(hs, add_beta).len() ==> {
            let k = (#[trigger] spec_forward_headers(hs, add_beta)[j]).0;
            k == "anthropic-beta"@ || (!dropped_header(ascii_lower(k)) && ascii_lower(k) != "anthropic-beta"@)
        },
        add_beta ==> assoc_get(spec_forward_headers(hs, add_beta), "anthropic-beta"@) is Some,
{
    lemma_headers_fold_keys(hs);
    let (out, betas) = headers_fold(hs);
    let betas2 = if add_beta && !betas.contains(crate::proxy::beta_token()) { betas.push(crate::proxy::beta_token()) } else { betas };
    if betas2.len() > 0 {
        let j0 = 0int;
        assert forall|j: int| 0 <= j < spec_forward_headers(hs, add_beta).len() implies {
            let k = (#[trigger] spec_forward_headers(hs, add_beta)[j]).0;
            k == "anthropic-beta"@ || (!dropped_header(ascii_lower(k)) && ascii_lower(k) != "anthropic-beta"@)
        } by {
            lemma_assoc_set_key_origin(out, "anthropic-beta"@, crate::proxy::join_bytes(betas2, seq![44u8, 32u8]), j);
        }
        lemma_assoc_set_get(out, "anthropic-beta"@, crate::proxy::join_bytes(betas2, seq![44u8, 32u8]));
    } else {
        if add_beta {
            if betas.contains(crate::proxy::beta_token()) {
                assert(betas.len() > 0);
            }
        }
    }
}

/// Setting one key leaves the value of every other key as it was.
proof fn lemma_assoc_set_other<K, V>(s: Seq<(K, V)>, k: K, v: V, p: K)
    requires
        p != k,
    ensures
        assoc_get(assoc_set(s, k, v), p) == assoc_get(s, p),
{
    let t = assoc_set(s, k, v);
    let ik = assoc_index(s, k);
    if ik >= 0 {
        lemma_index_found(s, k);
    } else {
        lemma_absent(s, k);
    }
    assert forall|j: int| 0 <= j < s.len() implies (t[j].0 == p) == (s[j].0 == p) && (s[j].0 == p ==> t[j] == s[j]) by {
        if j != ik {
            assert(t[j] == s[j]);
        }
    }
    if assoc_index(s, p) >= 0 {
        let i = choose|i: int| first_key_at(s, p, i);
        assert(first_key_at(s, p, i));
        assert(first_key_at(t, p, i));
        lemma_assoc_index_at(t, p, i);
        lemma_assoc_index_at(s, p, i);
    } else {
        lemma_absent(s, p);
        assert forall|j: int| 0 <= j < t.len() implies t[j].0 != p by {
            if j >= s.len() {
                assert(t[j].0 == k);
            }
        }
        lemma_assoc_index_none(t, p);
    }
}

/// A non-empty history has at least one distinct state.
proof fn lemma_distinct_pos(h: Seq<VersionModel>)
    requires
        h.len() > 0,
    ensures
        distinct_states(h) >= 1,
    decreases h.len(),
{
    let prior = h.drop_last();
    if prior.len() > 0 {
        lemma_distinct_pos(prior);
    }
}

/// The signal of an edit describes the edit at its position: the same file
/// and outcome, a change of at most the whole file, and at least one distinct
/// state.
pub open spec fn signal_describes(s: SignalView, e: EditView, kind: ObservationKind) -> bool {
    &&& s.path == e.path
    &&& s.observation == kind
    &&& s.change.0 <= s.change.1
    &&& 0 < s.change.1
    &&& s.distinct_states >= 1
}

proof fn lemma_step_signal(m: DetectorModel, idx: nat, kind: ObservationKind, sig: Seq<char>, e: EditView)
    ensures
        signal_describes(edit_step(m, idx, kind, sig, e).1, e, kind),
        history_of(m, e.path).len() == 0 ==> edit_step(m, idx, kind, sig, e).1.change == (1nat, 1nat),
        forall|p: Seq<char>| p != e.path ==> #[trigger] history_of(edit_step(m, idx, kind, sig, e).0, p) == history_of(m, p),
{
    let hist = history_of(m, e.path);
    if hist.len() > 0 {
        lemma_lev_le_max(normalized(hist.last().content), normalized(e.content));
    }
    let hist2 = hist.push(VersionModel { canonical: edit_key(m, sig, e).canonical, content: e.content });
    lemma_distinct_pos(hist2);
    assert forall|p: Seq<char>| p != e.path implies #[trigger] history_of(edit_step(m, idx, kind, sig, e).0, p) == history_of(m, p) by {
        lemma_assoc_set_other(m.histories, e.path, hist2, p);
    }
}

proof fn lemma_fold_signals(m: DetectorModel, idx: nat, kind: ObservationKind, sig: Seq<char>, edits: Seq<EditView>)
    ensures
        edits_fold(m, idx, kind, sig, edits).1.len() == edits.len(),
        forall|i: int| 0 <= i < edits.len() ==> signal_describes(#[trigger] edits_fold(m, idx, kind, sig, edits).1[i], edits[i], kind),
        forall|i: int| 0 <= i < edits.len() && history_of(m, edits[i].path).len() == 0
            && (forall|j: int| 0 <= j < i ==> edits[j].path != edits[i].path)
            ==> #[trigger] edits_fold(m, idx, kind, sig, edits).1[i].change == (1nat, 1nat),
        forall|p: Seq<char>| (forall|j: int| 0 <= j < edits.len() ==> edits[j].path != p)
            ==> #[trigger] history_of(edits_fold(m, idx, kind, sig, edits).0, p) == history_of(m, p),
    decreases edits.len(),
{
    if edits.len() > 0 {
        let prev = edits.drop_last();
        let e = edits.last();
        lemma_fold_signals(m, idx, kind, sig, prev);
        let (m1, sigs) = edits_fold(m, idx, kind, sig, prev);
        lemma_step_signal(m1, idx, kind, sig, e);
        let all = edits_fold(m, idx, kind, sig, edits).1;
        assert(all == sigs.push(edit_step(m1, idx, kind, sig, e).1));
        assert forall|i: int| 0 <= i < edits.len() implies signal_describes(#[trigger] all[i], edits[i], kind) by {
            if i < prev.len() {
                assert(all[i] == sigs[i]);
                assert(edits[i] == prev[i]);
            }
        }
        assert forall|i: int| 0 <= i < edits.len() && history_of(m, edits[i].path).len() == 0
            && (forall|j: int| 0 <= j < i ==> edits[j].path != edits[i].path)
            implies #[trigger] all[i].change == (1nat, 1nat) by {
            if i < prev.len() {
                assert(all[i] == sigs[i]);
                assert(edits[i] == prev[i]);
                assert forall|j: int| 0 <= j < i implies prev[j].path != prev[i].path by {
                    assert(prev[j] == edits[j]);
                }
            } else {
                assert forall|j: int| 0 <= j < prev.len() implies prev[j].path != e.path by {
                    assert(prev[j] == edits[j]);
                }
                assert(history_of(m1, e.path) == history_of(m, e.path));
            }
        }
        assert forall|p: Seq<char>| (forall|j: int| 0 <= j < edits.len() ==> edits[j].path != p)
            implies #[trigger] history_of(edits_fold(m, idx, kind, sig, edits).0, p) == history_of(m, p) by {
            assert forall|j: int| 0 <= j < prev.len() implies prev[j].path != p by {
                assert(prev[j] == edits[j]);
            }
            assert(e.path != p);
        }
    }
}

/// Each signal of a turn describes the edit at its position: the same file
/// and outcome, a change of at most the whole file, and at least one distinct
/// state; a file's first write counts as fully changed. The verdict's
/// severity is the most severe of its signals (`Okay` when there are none).
pub proof fn law_signals_describe_edits(m: DetectorModel, t: TurnView)
    ensures
        step(m, t).1.severity == max_severity(step(m, t).1.signals),
        step(m, t).1.signals.len() == t.edits.len(),
        forall|i: int| 0 <= i < t.edits.len() ==> signal_describes(#[trigger] step(m, t).1.signals[i], t.edits[i], t.kind),
        forall|i: int| 0 <= i < t.edits.len() && history_of(m, t.edits[i].path).len() == 0
            && (forall|j: int| 0 <= j < i ==> t.edits[j].path != t.edits[i].path)
            ==> #[trigger] step(m, t).1.signals[i].change == (1nat, 1nat),
{
    let m1 = after_reads(m, t);
    lemma_fold_signals(m1, m.turn_index, t.kind, t.signature, t.edits);
    assert forall|p: Seq<char>| #[trigger] history_of(m1, p) == history_of(m, p) by {}
}

/// The read count recorded for `f` (zero when `f` has no entry).
pub open spec fn ro_count(ro: Seq<(Seq<char>, nat)>, f: Seq<char>) -> nat {
    match assoc_get(ro, f) {
        Some(c) => c,
        None => 0,
    }
}

/// Every recorded read count is at least one.
pub open spec fn counts_positive(ro: Seq<(Seq<char>, nat)>) -> bool {
    forall|i: int| 0 <= i < ro.len() ==> #[trigger] ro[i].1 >= 1
}

/// How often `f` occurs in `reads`.
pub open spec fn count_in(reads: Seq<Seq<char>>, f: Seq<char>) -> nat
    decreases reads.len(),
{
    if reads.len() == 0 {
        0
    } else {
        count_in(reads.drop_last(), f) + if reads.last() == f { 1nat } else { 0nat }
    }
}

/// The files a list of edits writes.
pub open spec fn edit_paths(edits: Seq<EditView>) -> Set<Seq<char>> {
    Set::new(|p: Seq<char>| exists|j: int| 0 <= j < edits.len() && edits[j].path == p)
}

/// Removing one key leaves the value of every other key as it was.
proof fn lemma_assoc_remove_other<K, V>(s: Seq<(K, V)>, k: K, p: K)
    requires
        p != k,
    ensures
        assoc_get(assoc_remove(s, k), p) == assoc_get(s, p),
{
    let t = assoc_remove(s, k);
    let ik = assoc_index(s, k);
    if ik >= 0 {
        lemma_index_found(s, k);
        if assoc_index(s, p) >= 0 {
            let i = choose|i: int| first_key_at(s, p, i);
            assert(first_key_at(s, p, i));
            lemma_assoc_index_at(s, p, i);
            let i2 = if i < ik { i } else { i - 1 };
            assert(i != ik);
            assert(t[i2] == s[i]);
            assert(first_key_at(t, p, i2)) by {
                assert forall|j: int| 0 <= j < i2 implies t[j].0 != p by {
                    let j0 = if j < ik { j } else { j + 1 };
                    assert(t[j] == s[j0]);
                }
            }
            lemma_assoc_index_at(t, p, i2);
        } else {
            lemma_absent(s, p);
            assert forall|j: int| 0 <= j < t.len() implies t[j].0 != p by {
                let j0 = if j < ik { j } else { j + 1 };
                assert(t[j] == s[j0]);
            }
            lemma_assoc_index_none(t, p);
        }
    }
}

/// Removing a key from a list of unique keys leaves it without a value.
proof fn lemma_assoc_remove_self<V>(s: Seq<(Seq<char>, V)>, k: Seq<char>)
    requires
        keys_unique(s),
    ensures
        assoc_get(assoc_remove(s, k), k) is None,
{
    lemma_assoc_remove_keys(s, k);
    lemma_assoc_index_none(assoc_remove(s, k), k);
}

/// Setting a positive count keeps every count positive.
proof fn lemma_set_positive(ro: Seq<(Seq<char>, nat)>, k: Seq<char>, v: nat)
    requires
        counts_positive(ro),
        v >= 1,
    ensures
        counts_positive(assoc_set(ro, k, v)),
{
    let t = assoc_set(ro, k, v);
    let ik = assoc_index(ro, k);
    assert forall|j: int| 0 <= j < t.len() implies #[trigger] t[j].1 >= 1 by {
        if j < ro.len() && j != ik {
            assert(t[j] == ro[j]);
        }
    }
}

/// Removing a key keeps every count positive.
proof fn lemma_remove_positive(ro: Seq<(Seq<char>, nat)>, k: Seq<char>)
    requires
        counts_positive(ro),
    ensures
        counts_positive(assoc_remove(ro, k)),
{
    let t = assoc_remove(ro, k);
    let ik = assoc_index(ro, k);
    if ik >= 0 {
        lemma_index_found(ro, k);
    }
    assert forall|j: int| 0 <= j < t.len() implies #[trigger] t[j].1 >= 1 by {
        if ik >= 0 {
            let j0 = if j < ik { j } else { j + 1 };
            assert(t[j] == ro[j0]);
        } else {
            assert(t[j] == ro[j]);
        }
    }
}

/// The reads of a turn add one to the count of each file read that is not
/// edited, and keep the counts positive.
proof fn lemma_reads_counts(ro: Seq<(Seq<char>, nat)>, edited: Set<Seq<char>>, reads: Seq<Seq<char>>)
    requires
        counts_positive(ro),
    ensures
        counts_positive(reads_fold(ro, edited, reads)),
        forall|f: Seq<char>| #[trigger] ro_count(reads_fold(ro, edited, reads), f) == if edited.contains(f) {
            ro_count(ro, f)
        } else {
            ro_count(ro, f) + count_in(reads, f)
        },
    decreases reads.len(),
{
    if reads.len() > 0 {
        lemma_reads_counts(ro, edited, reads.drop_last());
        let r0 = reads_fold(ro, edited, reads.drop_last());
        let r = reads.last();
        let c = ro_count(r0, r);
        if !edited.contains(r) {
            lemma_assoc_set_get(r0, r, c + 1);
            lemma_set_positive(r0, r, c + 1);
        }
        let r1 = reads_fold(ro, edited, reads);
        assert forall|f: Seq<char>| #[trigger] ro_count(r1, f) == if edited.contains(f) {
            ro_count(ro, f)
        } else {
            ro_count(ro, f) + count_in(reads, f)
        } by {
            assert(ro_count(r0, f) == if edited.contains(f) {
                ro_count(ro, f)
            } else {
                ro_count(ro, f) + count_in(reads.drop_last(), f)
            });
            if f != r && !edited.contains(r) {
                lemma_assoc_set_other(r0, r, c + 1, f);
            }
        }
    }
}

proof fn lemma_edits_counts(m: DetectorModel, idx: nat, kind: ObservationKind, sig: Seq<char>, edits: Seq<EditView>)
    requires
        read_only_sound(m),
        counts_positive(m.read_only),
    ensures
        read_only_sound(edits_fold(m, idx, kind, sig, edits).0),
        counts_positive(edits_fold(m, idx, kind, sig, edits).0.read_only),
        edits_fold(m, idx, kind, sig, edits).0.edited == m.edited.union(edit_paths(edits)),
        forall|f: Seq<char>| #[trigger] ro_count(edits_fold(m, idx, kind, sig, edits).0.read_only, f)
            == if edit_paths(edits).contains(f) { 0 } else { ro_count(m.read_only, f) },
    decreases edits.len(),
{
    lemma_fold_sound(m, idx, kind, sig, edits);
    if edits.len() == 0 {
        assert(m.edited.union(edit_paths(edits)) =~= m.edited);
    } else {
        let prev = edits.drop_last();
        let e = edits.last();
        lemma_edits_counts(m, idx, kind, sig, prev);
        lemma_fold_sound(m, idx, kind, sig, prev);
        let m1 = edits_fold(m, idx, kind, sig, prev).0;
        let m2 = edits_fold(m, idx, kind, sig, edits).0;
        assert(m2 == edit_step(m1, idx, kind, sig, e).0);
        lemma_remove_positive(m1.read_only, e.path);
        assert forall|f: Seq<char>| #[trigger] edit_paths(edits).contains(f) == (edit_paths(prev).contains(f) || f == e.path) by {
            if edit_paths(edits).contains(f) && f != e.path {
                let j = choose|j: int| 0 <= j < edits.len() && edits[j].path == f;
                assert(j < prev.len());
                assert(prev[j] == edits[j]);
            }
            if edit_paths(prev).contains(f) {
                let j = choose|j: int| 0 <= j < prev.len() && prev[j].path == f;
                assert(prev[j] == edits[j]);
            }
            if f == e.path {
                assert(edits[edits.len() - 1].path == f);
            }
        }
        assert(m2.edited =~= m.edited.union(edit_paths(edits)));
        assert forall|f: Seq<char>| #[trigger] ro_count(m2.read_only, f)
            == if edit_paths(edits).contains(f) { 0 } else { ro_count(m.read_only, f) } by {
            if f == e.path {
                lemma_assoc_remove_self(m1.read_only, e.path);
            } else {
                lemma_assoc_remove_other(m1.read_only, e.path, f);
                assert(ro_count(m1.read_only, f) == if edit_paths(prev).contains(f) { 0 } else { ro_count(m.read_only, f) });
            }
        }
    }
}

/// A file with no entry has count zero.
proof fn lemma_no_entry_zero(ro: Seq<(Seq<char>, nat)>, f: Seq<char>)
    requires
        forall|i: int| 0 <= i < ro.len() ==> ro[i].0 != f,
    ensures
        ro_count(ro, f) == 0,
{
    lemma_assoc_index_none(ro, f);
}

proof fn lemma_turn_counts(m: DetectorModel, t: TurnView)
    requires
        read_only_sound(m),
        counts_positive(m.read_only),
    ensures
        read_only_sound(step(m, t).0),
        counts_positive(step(m, t).0.read_only),
        step(m, t).0.edited == m.edited.union(edit_paths(t.edits)),
        forall|f: Seq<char>| #[trigger] ro_count(step(m, t).0.read_only, f)
            == if m.edited.contains(f) || edit_paths(t.edits).contains(f) {
                0
            } else {
                ro_count(m.read_only, f) + count_in(t.reads, f)
            },
{
    lemma_reads_sound(m.read_only, m.edited, t.reads);
    lemma_reads_counts(m.read_only, m.edited, t.reads);
    let m1 = after_reads(m, t);
    lemma_edits_counts(m1, m.turn_index, t.kind, t.signature, t.edits);
    assert forall|f: Seq<char>| #[trigger] ro_count(step(m, t).0.read_only, f)
        == if m.edited.contains(f) || edit_paths(t.edits).contains(f) {
            0
        } else {
            ro_count(m.read_only, f) + count_in(t.reads, f)
        } by {
        assert(ro_count(m1.read_only, f) == if m.edited.contains(f) {
            ro_count(m.read_only, f)
        } else {
            ro_count(m.read_only, f) + count_in(t.reads, f)
        });
        if m.edited.contains(f) {
            assert forall|i: int| 0 <= i < m.read_only.len() implies m.read_only[i].0 != f by {
                assert(!m.edited.contains(m.read_only[i].0));
            }
            lemma_no_entry_zero(m.read_only, f);
        }
    }
}

/// Whether some turn of `ts` edits `f`.
pub open spec fn edited_in(ts: Seq<TurnView>, f: Seq<char>) -> bool {
    exists|i: int, j: int| 0 <= i < ts.len() && 0 <= j < ts[i].edits.len() && #[trigger] ts[i].edits[j].path == f
}

/// How often `f` is read over all turns of `ts`.
pub open spec fn reads_of(ts: Seq<TurnView>, f: Seq<char>) -> nat
    decreases ts.len(),
{
    if ts.len() == 0 {
        0
    } else {
        reads_of(ts.drop_last(), f) + count_in(ts.last().reads, f)
    }
}

/// Over a session replayed from a fresh detector, the edited files are those
/// some turn edits, and the read count kept for a file is the number of times
/// it was read in the whole session, or zero once any turn edits it.
pub proof fn law_read_counts_over_a_session(policy: crate::policy::ThrashPolicy, ts: Seq<TurnView>)
    ensures
        read_only_sound(run(initial_model(policy), ts)),
        counts_positive(run(initial_model(policy), ts).read_only),
        forall|f: Seq<char>| #[trigger] run(initial_model(policy), ts).edited.contains(f) == edited_in(ts, f),
        forall|f: Seq<char>| #[trigger] ro_count(run(initial_model(policy), ts).read_only, f)
            == if edited_in(ts, f) { 0 } else { reads_of(ts, f) },
    decreases ts.len(),
{
    let m0 = initial_model(policy);
    if ts.len() == 0 {
        assert forall|f: Seq<char>| #[trigger] ro_count(m0.read_only, f) == 0 by {
            lemma_no_entry_zero(m0.read_only, f);
        }
    } else {
        let prev = ts.drop_last();
        let t = ts.last();
        law_read_counts_over_a_session(policy, prev);
        let m = run(m0, prev);
        lemma_turn_counts(m, t);
        assert forall|f: Seq<char>| #[trigger] edited_in(ts, f) == (edited_in(prev, f) || edit_paths(t.edits).contains(f)) by {
            if edited_in(ts, f) {
                let (i, j) = choose|i: int, j: int| 0 <= i < ts.len() && 0 <= j < ts[i].edits.len() && #[trigger] ts[i].edits[j].path == f;
                if i < prev.len() {
                    assert(prev[i] == ts[i]);
                    assert(prev[i].edits[j].path == f);
                } else {
                    assert(t.edits[j].path == f);
                }
            }
            if edited_in(prev, f) {
                let (i, j) = choose|i: int, j: int| 0 <= i < prev.len() && 0 <= j < prev[i].edits.len() && #[trigger] prev[i].edits[j].path == f;
                assert(prev[i] == ts[i]);
                assert(ts[i].edits[j].path == f);
            }
            if edit_paths(t.edits).contains(f) {
                let j = choose|j: int| 0 <= j < t.edits.len() && t.edits[j].path == f;
                assert(ts[ts.len() - 1].edits[j].path == f);
            }
        }
        assert forall|f: Seq<char>| #[trigger] run(m0, ts).edited.contains(f) == edited_in(ts, f) by {
            assert(m.edited.contains(f) == edited_in(prev, f));
        }
        assert forall|f: Seq<char>| #[trigger] ro_count(run(m0, ts).read_only, f)
            == if edited_in(ts, f) { 0 } else { reads_of(ts, f) } by {
            assert(m.edited.contains(f) == edited_in(prev, f));
            assert(ro_count(m.read_only, f) == if edited_in(prev, f) { 0 } else { reads_of(prev, f) });
        }
    }
}

/// The entry of a file in a list of unique keys carries its count.
proof fn lemma_entry_count(ro: Seq<(Seq<char>, nat)>, i: int)
    requires
        keys_unique(ro),
        0 <= i < ro.len(),
    ensures
        ro_count(ro, ro[i].0) == ro[i].1,
{
    assert(first_key_at(ro, ro[i].0, i));
    lemma_assoc_index_at(ro, ro[i].0, i);
}

/// A file with a positive count has an entry carrying it.
proof fn lemma_count_entry(ro: Seq<(Seq<char>, nat)>, f: Seq<char>)
    requires
        ro_count(ro, f) > 0,
    ensures
        exists|j: int| 0 <= j < ro.len() && ro[j].0 == f && ro[j].1 == ro_count(ro, f),
{
    lemma_index_found(ro, f);
    let j = assoc_index(ro, f);
    assert(ro[j].0 == f && ro[j].1 == ro_count(ro, f));
}

/// The note of a session analysed from its turns suggests a file that was
/// read and never edited in the whole session, other than the thrashed one,
/// and no such file was read more often; it suggests none only when every
/// file other than the thrashed one was edited or never read.
pub proof fn law_suggestion_over_a_session(policy: crate::policy::ThrashPolicy, ts: Seq<TurnView>)
    ensures
        spec_analyze_turns(ts, policy) matches Some(iv) ==> {
            &&& iv.suggested_file matches Some(p) ==> {
                &&& p != iv.thrashed_file
                &&& !edited_in(ts, p)
                &&& reads_of(ts, p) >= 1
                &&& forall|f: Seq<char>| f != iv.thrashed_file && !edited_in(ts, f)
                    ==> #[trigger] reads_of(ts, f) <= reads_of(ts, p)
            }
            &&& iv.suggested_file is None ==> forall|f: Seq<char>| f != iv.thrashed_file && !edited_in(ts, f)
                ==> #[trigger] reads_of(ts, f) == 0
        },
{
    if spec_analyze_turns(ts, policy) is Some {
        let iv = spec_analyze_turns(ts, policy)->0;
        let m0 = initial_model(policy);
        let prev = ts.drop_last();
        assert(ts =~= prev.push(ts.last()));
        assert(run(m0, ts) == step(run(m0, prev), ts.last()).0);
        law_read_counts_over_a_session(policy, ts);
        let ro = run(m0, ts).read_only;
        assert(iv.suggested_file == suggestion(ro, iv.thrashed_file));
        law_suggestion_is_most_read_other_file(ro, iv.thrashed_file);
        match iv.suggested_file {
            Some(p) => {
                let i = choose|i: int| #![trigger ro[i]] 0 <= i < ro.len() && ro[i].0 == p
                    && forall|j: int| 0 <= j < ro.len() && ro[j].0 != iv.thrashed_file ==> ro[j].1 <= ro[i].1;
                lemma_entry_count(ro, i);
                assert(ro[i].1 >= 1);
                assert(ro_count(ro, p) == if edited_in(ts, p) { 0 } else { reads_of(ts, p) });
                assert forall|f: Seq<char>| f != iv.thrashed_file && !edited_in(ts, f)
                    implies #[trigger] reads_of(ts, f) <= reads_of(ts, p) by {
                    assert(ro_count(ro, f) == if edited_in(ts, f) { 0 } else { reads_of(ts, f) });
                    if reads_of(ts, f) > 0 {
                        lemma_count_entry(ro, f);
                        let j = choose|j: int| 0 <= j < ro.len() && ro[j].0 == f && ro[j].1 == ro_count(ro, f);
                        assert(ro[j].1 <= ro[i].1);
                    }
                }
            },
            None => {
                assert forall|f: Seq<char>| f != iv.thrashed_file && !edited_in(ts, f)
                    implies #[trigger] reads_of(ts, f) == 0 by {
                    assert(ro_count(ro, f) == if edited_in(ts, f) { 0 } else { reads_of(ts, f) });
                    if reads_of(ts, f) > 0 {
                        lemma_count_entry(ro, f);
                        let j = choose|j: int| 0 <= j < ro.len() && ro[j].0 == f && ro[j].1 == ro_count(ro, f);
                        assert(ro[j].0 == iv.thrashed_file);
                    }
                }
            },
        }
    }
}

/// The merged beta header's name reads the same in lowercase.
proof fn lemma_beta_name_lower()
    ensures
        ascii_lower("anthropic-beta"@) == "anthropic-beta"@,
{
    reveal_strlit("anthropic-beta");
    let x = "anthropic-beta"@;
    assert forall|i: int| 0 <= i < x.len() implies ascii_lower(x)[i] == x[i] by {
        assert(!('A' <= x[i] && x[i] <= 'Z'));
    }
    assert(ascii_lower(x) =~= x);
}

/// A header name whose lowercase form is none of the headers the proxy
/// drops or merges.
pub open spec fn passes_through(name: Seq<char>) -> bool {
    let n = ascii_lower(name);
    &&& n != "host"@
    &&& n != "content-length"@
    &&& n != "connection"@
    &&& n != "accept-encoding"@
    &&& n != "anthropic-beta"@
}

proof fn lemma_fold_keeps_last(hs: Seq<(Seq<char>, Seq<u8>)>)
    ensures
        forall|i: int| 0 <= i < hs.len() && passes_through(hs[i].0)
            && (forall|j: int| i < j < hs.len() ==> hs[j].0 != hs[i].0)
            ==> assoc_get(headers_fold(hs).0, #[trigger] hs[i].0) == Some(hs[i].1),
    decreases hs.len(),
{
    if hs.len() > 0 {
        let prev = hs.drop_last();
        let h = hs.last();
        lemma_fold_keeps_last(prev);
        let acc = headers_fold(prev);
        assert(headers_fold(hs) == header_step(acc, h));
        assert forall|i: int| 0 <= i < hs.len() && passes_through(hs[i].0)
            && (forall|j: int| i < j < hs.len() ==> hs[j].0 != hs[i].0)
            implies assoc_get(headers_fold(hs).0, #[trigger] hs[i].0) == Some(hs[i].1) by {
            if i == hs.len() - 1 {
                lemma_assoc_set_get(acc.0, h.0, h.1);
            } else {
                assert(prev[i] == hs[i]);
                assert(hs[hs.len() - 1].0 != hs[i].0);
                assert forall|j: int| i < j < prev.len() implies prev[j].0 != prev[i].0 by {
                    assert(prev[j] == hs[j]);
                }
                let n = ascii_lower(h.0);
                if !dropped_header(n) && n != "anthropic-beta"@ {
                    lemma_assoc_set_other(acc.0, h.0, h.1, hs[i].0);
                }
            }
        }
    }
}

/// Every incoming header that is neither hop-by-hop, client-managed nor a
/// beta header goes upstream unchanged, with the last value it came with.
pub proof fn law_other_headers_are_forwarded(hs: Seq<(Seq<char>, Seq<u8>)>, add_beta: bool)
    ensures
        forall|i: int| 0 <= i < hs.len() && passes_through(hs[i].0)
            && (forall|j: int| i < j < hs.len() ==> hs[j].0 != hs[i].0)
            ==> {
                &&& assoc_get(spec_forward_headers(hs, add_beta), #[trigger] hs[i].0) == Some(hs[i].1)
                &&& exists|k: int| 0 <= k < spec_forward_headers(hs, add_beta).len()
                    && spec_forward_headers(hs, add_beta)[k] == hs[i]
            },
{
    lemma_fold_keeps_last(hs);
    lemma_beta_name_lower();
    let (out, betas) = headers_fold(hs);
    let betas2 = if add_beta && !betas.contains(crate::proxy::beta_token()) { betas.push(crate::proxy::beta_token()) } else { betas };
    let res = spec_forward_headers(hs, add_beta);
    assert forall|i: int| 0 <= i < hs.len() && passes_through(hs[i].0)
        && (forall|j: int| i < j < hs.len() ==> hs[j].0 != hs[i].0)
        implies {
            &&& assoc_get(res, #[trigger] hs[i].0) == Some(hs[i].1)
            &&& exists|k: int| 0 <= k < res.len() && res[k] == hs[i]
        } by {
        assert(hs[i].0 != "anthropic-beta"@);
        if betas2.len() > 0 {
            lemma_assoc_set_other(out, "anthropic-beta"@, crate::proxy::join_bytes(betas2, seq![44u8, 32u8]), hs[i].0);
        }
        lemma_index_found(res, hs[i].0);
        let k = assoc_index(res, hs[i].0);
        assert(res[k] == hs[i]);
    }
}

/// Output that mentions one of `markers`.
pub open spec fn mentions_any(s: Seq<char>, markers: Seq<Seq<char>>) -> bool {
    exists|i: int| 0 <= i < markers.len() && contains_seq(s, #[trigger] markers[i])
}

/// The words that make output read as a failure.
pub open spec fn failure_words() -> Seq<Seq<char>> {
    seq!["error"@, "failed"@, "failure"@, " fail"@, "traceback"@, "panic"@, "exception"@, "assertionerror"@,
        "not ok"@, "✗"@, "fatal"@]
}

/// The words that make output read as a pass.
pub open spec fn pass_words() -> Seq<Seq<char>> {
    seq!["passed"@, "all tests pass"@, " ok"@, "success"@, "✓"@, "0 failures"@, "build succeeded"@]
}

/// Failures dominate: output whose lowercase form mentions a failure word is
/// an error, whatever pass words it also holds, and carries its signature;
/// output reads as a pass (with no signature) only when it mentions no failure
/// word and some pass word; anything else is neutral and keeps its signature.
pub proof fn law_failures_dominate(text: Seq<char>)
    ensures
        mentions_any(std_lowercase(text), failure_words())
            ==> crate::anthropic::spec_classify_text(text) == (ObservationKind::Error, crate::anthropic::spec_signature_of(text)),
        !mentions_any(std_lowercase(text), failure_words()) && mentions_any(std_lowercase(text), pass_words())
            ==> crate::anthropic::spec_classify_text(text) == (ObservationKind::Success, Seq::<char>::empty()),
        !mentions_any(std_lowercase(text), failure_words()) && !mentions_any(std_lowercase(text), pass_words())
            ==> crate::anthropic::spec_classify_text(text) == (ObservationKind::Neutral, crate::anthropic::spec_signature_of(text)),
{
    let l = std_lowercase(text);
    let fw = failure_words();
    let pw = pass_words();
    assert(mentions_any(l, fw) == crate::anthropic::has_error_marker(l)) by {
        if crate::anthropic::has_error_marker(l) {
            if contains_seq(l, "error"@) { assert(fw[0] == "error"@); }
            if contains_seq(l, "failed"@) { assert(fw[1] == "failed"@); }
            if contains_seq(l, "failure"@) { assert(fw[2] == "failure"@); }
            if contains_seq(l, " fail"@) { assert(fw[3] == " fail"@); }
            if contains_seq(l, "traceback"@) { assert(fw[4] == "traceback"@); }
            if contains_seq(l, "panic"@) { assert(fw[5] == "panic"@); }
            if contains_seq(l, "exception"@) { assert(fw[6] == "exception"@); }
            if contains_seq(l, "assertionerror"@) { assert(fw[7] == "assertionerror"@); }
            if contains_seq(l, "not ok"@) { assert(fw[8] == "not ok"@); }
            if contains_seq(l, "✗"@) { assert(fw[9] == "✗"@); }
            if contains_seq(l, "fatal"@) { assert(fw[10] == "fatal"@); }
        }
    }
    assert(mentions_any(l, pw) == crate::anthropic::has_success_marker(l)) by {
        if crate::anthropic::has_success_marker(l) {
            if contains_seq(l, "passed"@) { assert(pw[0] == "passed"@); }
            if contains_seq(l, "all tests pass"@) { assert(pw[1] == "all tests pass"@); }
            if contains_seq(l, " ok"@) { assert(pw[2] == " ok"@); }
            if contains_seq(l, "success"@) { assert(pw[3] == "success"@); }
            if contains_seq(l, "✓"@) { assert(pw[4] == "✓"@); }
            if contains_seq(l, "0 failures"@) { assert(pw[5] == "0 failures"@); }
            if contains_seq(l, "build succeeded"@) { assert(pw[6] == "build succeeded"@); }
        }
    }
}

/// The edits and reads of all assistant tool calls in `msgs`, in order.
pub open spec fn assistant_uses(msgs: Seq<JsonView>) -> (Seq<EditView>, Seq<Seq<char>>)
    decreases msgs.len(),
{
    if msgs.len() == 0 {
        (Seq::empty(), Seq::empty())
    } else {
        let acc = assistant_uses(msgs.drop_last());
        let msg = msgs.last();
        if crate::anthropic::role_of(msg) == Some("assistant"@) {
            crate::anthropic::uses_fold(acc.0, acc.1, crate::anthropic::content_blocks(msg))
        } else {
            acc
        }
    }
}

/// The edits of `ts`, turn after turn.
pub open spec fn flat_edits(ts: Seq<TurnView>) -> Seq<EditView>
    decreases ts.len(),
{
    if ts.len() == 0 { Seq::empty() } else { flat_edits(ts.drop_last()) + ts.last().edits }
}

/// The reads of `ts`, turn after turn.
pub open spec fn flat_reads(ts: Seq<TurnView>) -> Seq<Seq<char>>
    decreases ts.len(),
{
    if ts.len() == 0 { Seq::empty() } else { flat_reads(ts.drop_last()) + ts.last().reads }
}

/// Tool calls only add to what was collected before them.
proof fn lemma_uses_fold_appends(es: Seq<EditView>, rs: Seq<Seq<char>>, blocks: Seq<JsonView>)
    ensures
        crate::anthropic::uses_fold(es, rs, blocks).0 == es + crate::anthropic::uses_fold(Seq::empty(), Seq::empty(), blocks).0,
        crate::anthropic::uses_fold(es, rs, blocks).1 == rs + crate::anthropic::uses_fold(Seq::empty(), Seq::empty(), blocks).1,
    decreases blocks.len(),
{
    if blocks.len() == 0 {
        assert(es + Seq::<EditView>::empty() =~= es);
        assert(rs + Seq::<Seq<char>>::empty() =~= rs);
    } else {
        lemma_uses_fold_appends(es, rs, blocks.drop_last());
        let u = crate::anthropic::uses_fold(Seq::empty(), Seq::empty(), blocks.drop_last());
        let b = blocks.last();
        let a = crate::anthropic::uses_fold(es, rs, blocks.drop_last());
        let x = crate::anthropic::tool_use_step(a.0, a.1, b);
        let y = crate::anthropic::tool_use_step(u.0, u.1, b);
        assert(a.0 == es + u.0 && a.1 == rs + u.1);
        assert(x.0 =~= es + y.0 && x.1 =~= rs + y.1) by {
            if let Some(p) = crate::anthropic::tool_path(crate::anthropic::or_null(member(b, "input"@))) {
                let e = EditView { path: p, content: crate::anthropic::tool_content(crate::anthropic::or_null(member(b, "input"@))) };
                assert((es + u.0).push(e) =~= es + u.0.push(e));
                assert((rs + u.1).push(p) =~= rs + u.1.push(p));
            }
        }
    }
}

/// Extraction loses and repeats nothing: the edits and reads of the closed
/// turns, followed by those still pending, are exactly the edits and reads of
/// all assistant tool calls, in order. In particular a closed turn's edits
/// and reads leave the pending lists.
pub proof fn law_turns_partition_tool_calls(msgs: Seq<JsonView>)
    ensures
        flat_edits(messages_fold(msgs).0) + messages_fold(msgs).1 == assistant_uses(msgs).0,
        flat_reads(messages_fold(msgs).0) + messages_fold(msgs).2 == assistant_uses(msgs).1,
    decreases msgs.len(),
{
    if msgs.len() == 0 {
        assert(Seq::<EditView>::empty() + Seq::<EditView>::empty() =~= Seq::<EditView>::empty());
        assert(Seq::<Seq<char>>::empty() + Seq::<Seq<char>>::empty() =~= Seq::<Seq<char>>::empty());
    } else {
        let prev = msgs.drop_last();
        let msg = msgs.last();
        law_turns_partition_tool_calls(prev);
        let (ts, es, rs) = messages_fold(prev);
        let au = assistant_uses(prev);
        let blocks = crate::anthropic::content_blocks(msg);
        if crate::anthropic::role_of(msg) == Some("assistant"@) {
            lemma_uses_fold_appends(es, rs, blocks);
            lemma_uses_fold_appends(au.0, au.1, blocks);
            let u = crate::anthropic::uses_fold(Seq::empty(), Seq::empty(), blocks);
            assert(flat_edits(ts) + (es + u.0) =~= (flat_edits(ts) + es) + u.0);
            assert(flat_reads(ts) + (rs + u.1) =~= (flat_reads(ts) + rs) + u.1);
        } else if crate::anthropic::role_of(msg) == Some("user"@) {
            match crate::anthropic::spec_strongest(blocks) {
                Some(o) => {
                    if o.0 != ObservationKind::Neutral {
                        let t = TurnView { edits: es, reads: rs, kind: o.0, signature: o.1, note: None };
                        let ts2 = ts.push(t);
                        assert(ts2.drop_last() =~= ts);
                        assert(flat_edits(ts2) + Seq::<EditView>::empty() =~= flat_edits(ts) + es);
                        assert(flat_reads(ts2) + Seq::<Seq<char>>::empty() =~= flat_reads(ts) + rs);
                    }
                },
                None => {},
            }
        }
    }
}

/// The extracted turns' edits and reads are, in order, a prefix of those of
/// all assistant tool calls in the body.
pub proof fn law_extracted_turns_repeat_nothing(body: JsonView)
    ensures
        flat_edits(spec_extract_turns(body)) =~= assistant_uses(messages_of(body)).0.take(flat_edits(spec_extract_turns(body)).len() as int),
        flat_reads(spec_extract_turns(body)) =~= assistant_uses(messages_of(body)).1.take(flat_reads(spec_extract_turns(body)).len() as int),
{
    law_turns_partition_tool_calls(messages_of(body));
}

/// Joining words after one more word, or after growing the last word.
proof fn lemma_join_push(w: Seq<Seq<char>>, x: Seq<char>)
    ensures
        join_seqs(w.push(x), " "@) == if w.len() == 0 { x } else { join_seqs(w, " "@) + " "@ + x },
{
    assert(w.push(x).drop_last() =~= w);
    if w.len() == 0 {
        assert(w.push(x)[0] == x);
    }
}

proof fn lemma_join_grow_last(w: Seq<Seq<char>>, c: char)
    requires
        w.len() > 0,
    ensures
        join_seqs(w.update(w.len() - 1, w.last().push(c)), " "@) == join_seqs(w, " "@).push(c),
{
    let u = w.update(w.len() - 1, w.last().push(c));
    assert(u.drop_last() =~= w.drop_last());
    if w.len() == 1 {
        assert(u[0] == w[0].push(c));
    } else {
        assert((join_seqs(w.drop_last(), " "@) + " "@ + w.last()).push(c)
            =~= join_seqs(w.drop_last(), " "@) + " "@ + w.last().push(c));
    }
}

proof fn lemma_join_nonempty(w: Seq<Seq<char>>)
    requires
        forall|i: int| 0 <= i < w.len() ==> (#[trigger] w[i]).len() > 0,
    ensures
        (join_seqs(w, " "@).len() > 0) == (w.len() > 0),
{
    if w.len() > 1 {
        assert(w.last() == w[w.len() - 1]);
    } else if w.len() == 1 {
        assert(w[0].len() > 0);
    }
}

proof fn lemma_normalized_words(s: Seq<char>)
    ensures
        normalized(s) == join_seqs(words(s), " "@),
        forall|i: int| 0 <= i < words(s).len() ==> (#[trigger] words(s)[i]).len() > 0,
        s.len() > 0 && !crate::text::is_ws(s.last()) ==> words(s).len() > 0,
    decreases s.len(),
{
    if s.len() > 0 {
        let prev = s.drop_last();
        let c = s.last();
        lemma_normalized_words(prev);
        let w = words(prev);
        let t = normalized(prev);
        lemma_join_nonempty(w);
        if !crate::text::is_ws(c) {
            if s.len() >= 2 && !crate::text::is_ws(s[s.len() - 2]) {
                assert(prev.last() == s[s.len() - 2]);
                lemma_join_grow_last(w, c);
                let u = w.update(w.len() - 1, w.last().push(c));
                assert forall|i: int| 0 <= i < u.len() implies (#[trigger] u[i]).len() > 0 by {
                    if i < w.len() - 1 {
                        assert(u[i] == w[i]);
                    }
                }
            } else {
                lemma_join_push(w, seq![c]);
                assert(t.push(' ').push(c) =~= t + " "@ + seq![c]) by {
                    reveal_strlit(" ");
                }
                if t.len() == 0 {
                    assert(t.push(c) =~= seq![c]);
                }
                let u = w.push(seq![c]);
                assert forall|i: int| 0 <= i < u.len() implies (#[trigger] u[i]).len() > 0 by {
                    if i < w.len() {
                        assert(u[i] == w[i]);
                    }
                }
            }
        }
    }
}

/// Normalising changes only whitespace: the result is the whitespace-separated
/// words of the body, in order and unchanged, joined by single spaces.
pub proof fn law_normalize_joins_words(s: Seq<char>)
    ensures
        normalized(s) == join_seqs(words(s), " "@),
        forall|i: int| 0 <= i < words(s).len() ==> (#[trigger] words(s)[i]).len() > 0,
{
    lemma_normalized_words(s);
}

/// The first turn kept for key `k`, zero when it is not counted.
pub open spec fn first_turn(occ: Seq<(OccKey, (nat, nat))>, k: OccKey) -> nat {
    match assoc_get(occ, k) {
        Some(cf) => cf.1,
        None => 0,
    }
}

/// The count kept for key `k`, zero when it is not counted.
pub open spec fn count_of(occ: Seq<(OccKey, (nat, nat))>, k: OccKey) -> nat {
    match assoc_get(occ, k) {
        Some(cf) => cf.0,
        None => 0,
    }
}

/// One edit keeps the first turn of every key already counted, counts a new
/// key only if it is the edit's own key (first seen on this turn), and reports
/// a repeat with the first turn its key keeps.
pub proof fn law_first_turn_is_kept(m: DetectorModel, idx: nat, kind: ObservationKind, sig: Seq<char>, e: EditView)
    ensures
        forall|k: OccKey| #[trigger] assoc_get(m.occurrences, k) is Some ==> {
            &&& assoc_get(edit_step(m, idx, kind, sig, e).0.occurrences, k) is Some
            &&& first_turn(edit_step(m, idx, kind, sig, e).0.occurrences, k) == first_turn(m.occurrences, k)
        },
        forall|k: OccKey| assoc_get(m.occurrences, k) is None
            && #[trigger] assoc_get(edit_step(m, idx, kind, sig, e).0.occurrences, k) is Some ==> {
            &&& k == edit_key(m, sig, e)
            &&& assoc_get(edit_step(m, idx, kind, sig, e).0.occurrences, k) == Some((1nat, idx))
        },
        assoc_get(edit_step(m, idx, kind, sig, e).0.occurrences, edit_key(m, sig, e)) is Some,
        edit_step(m, idx, kind, sig, e).1.occurrences
            == count_of(edit_step(m, idx, kind, sig, e).0.occurrences, edit_key(m, sig, e)),
        edit_step(m, idx, kind, sig, e).1.occurrences > 1 ==> edit_step(m, idx, kind, sig, e).1.first_seen_turn
            == Some(first_turn(edit_step(m, idx, kind, sig, e).0.occurrences, edit_key(m, sig, e))),
{
    let key = edit_key(m, sig, e);
    let cf = bumped(m, key, idx);
    lemma_assoc_set_get(m.occurrences, key, cf);
    assert forall|k: OccKey| #[trigger] assoc_get(m.occurrences, k) is Some implies {
        &&& assoc_get(edit_step(m, idx, kind, sig, e).0.occurrences, k) is Some
        &&& first_turn(edit_step(m, idx, kind, sig, e).0.occurrences, k) == first_turn(m.occurrences, k)
    } by {
        if k != key {
            lemma_assoc_set_other(m.occurrences, key, cf, k);
        }
    }
    assert forall|k: OccKey| assoc_get(m.occurrences, k) is None
        && #[trigger] assoc_get(edit_step(m, idx, kind, sig, e).0.occurrences, k) is Some implies {
        &&& k == key
        &&& assoc_get(edit_step(m, idx, kind, sig, e).0.occurrences, k) == Some((1nat, idx))
    } by {
        if k != key {
            lemma_assoc_set_other(m.occurrences, key, cf, k);
        }
    }
}

proof fn lemma_fold_first_turns(m: DetectorModel, idx: nat, kind: ObservationKind, sig: Seq<char>, edits: Seq<EditView>)
    ensures
        forall|k: OccKey| #[trigger] assoc_get(m.occurrences, k) is Some ==> {
            &&& assoc_get(edits_fold(m, idx, kind, sig, edits).0.occurrences, k) is Some
            &&& first_turn(edits_fold(m, idx, kind, sig, edits).0.occurrences, k) == first_turn(m.occurrences, k)
        },
        forall|k: OccKey| assoc_get(m.occurrences, k) is None
            && #[trigger] assoc_get(edits_fold(m, idx, kind, sig, edits).0.occurrences, k) is Some
            ==> first_turn(edits_fold(m, idx, kind, sig, edits).0.occurrences, k) == idx,
    decreases edits.len(),
{
    if edits.len() > 0 {
        lemma_fold_first_turns(m, idx, kind, sig, edits.drop_last());
        let m1 = edits_fold(m, idx, kind, sig, edits.drop_last()).0;
        law_first_turn_is_kept(m1, idx, kind, sig, edits.last());
        let m2 = edits_fold(m, idx, kind, sig, edits).0;
        assert forall|k: OccKey| #[trigger] assoc_get(m.occurrences, k) is Some implies {
            &&& assoc_get(m2.occurrences, k) is Some
            &&& first_turn(m2.occurrences, k) == first_turn(m.occurrences, k)
        } by {
            assert(assoc_get(m1.occurrences, k) is Some);
        }
        assert forall|k: OccKey| assoc_get(m.occurrences, k) is None
            && #[trigger] assoc_get(m2.occurrences, k) is Some implies first_turn(m2.occurrences, k) == idx by {
            if assoc_get(m1.occurrences, k) is Some {
                assert(first_turn(m1.occurrences, k) == idx);
            }
        }
    }
}

/// Over a session replayed from a fresh detector, the first turn kept for
/// each counted `(file, state, error)` key is the earliest turn on which an
/// edit landed on it: the key was not counted before that turn and was after.
pub proof fn law_first_seen_is_the_earliest_turn(policy: crate::policy::ThrashPolicy, ts: Seq<TurnView>)
    ensures
        run(initial_model(policy), ts).turn_index == ts.len(),
        forall|k: OccKey| #[trigger] assoc_get(run(initial_model(policy), ts).occurrences, k) is Some ==> {
            let f = first_turn(run(initial_model(policy), ts).occurrences, k);
            &&& f < ts.len()
            &&& assoc_get(run(initial_model(policy), ts.take(f as int)).occurrences, k) is None
            &&& assoc_get(run(initial_model(policy), ts.take(f + 1int)).occurrences, k) is Some
        },
    decreases ts.len(),
{
    let m0 = initial_model(policy);
    if ts.len() == 0 {
        assert forall|k: OccKey| #[trigger] assoc_get(m0.occurrences, k) is None by {
            lemma_assoc_index_none(m0.occurrences, k);
        }
    } else {
        let prev = ts.drop_last();
        let t = ts.last();
        law_first_seen_is_the_earliest_turn(policy, prev);
        let m = run(m0, prev);
        crate::anthropic::lemma_step_counters(m, t);
        let m1 = after_reads(m, t);
        lemma_fold_first_turns(m1, m.turn_index, t.kind, t.signature, t.edits);
        let m2 = run(m0, ts);
        assert(m2 == step(m, t).0);
        assert(ts.take(prev.len() as int) =~= prev);
        assert(ts.take(ts.len() as int) =~= ts);
        assert forall|k: OccKey| #[trigger] assoc_get(m2.occurrences, k) is Some implies {
            let f = first_turn(m2.occurrences, k);
            &&& f < ts.len()
            &&& assoc_get(run(m0, ts.take(f as int)).occurrences, k) is None
            &&& assoc_get(run(m0, ts.take(f + 1int)).occurrences, k) is Some
        } by {
            if assoc_get(m.occurrences, k) is Some {
                let f = first_turn(m.occurrences, k);
                assert(ts.take(f as int) =~= prev.take(f as int));
                assert(ts.take(f + 1int) =~= prev.take(f + 1int));
            }
        }
    }
}

} // verus!
