//! Adapter between the Messages API request body and the behavioural turns
//! the detector consumes, plus injection of the breaker's note.
//!
//! The mapping is heuristic and conservative: edits and reads come from
//! assistant `tool_use` blocks, outcomes from user `tool_result` blocks, and a
//! turn closes only on a real outcome (an error or a success).
use vstd::prelude::*;
use crate::json::{json_view, Json, JsonView, member, member_str, str_of, bool_of, array_of};
use crate::assoc::{assoc_index, lemma_assoc_index_at, lemma_assoc_index_none};
use crate::detector::{counts_bounded, initial_model, step, DetectorModel, ThrashDetector};
use crate::intervention::{Intervention, InterventionView};
use crate::policy::ThrashPolicy;
use crate::model::{opt_string_view, EditView, FileEdit, Observation, ObservationKind, Turn, TurnView};
use crate::text::{contains_seq, contains_str, lines, lowercase, split_lines, std_lowercase, string_of, take_chars, to_chars, trim, trim_chars};

verus! {

/// Output text that reads as a failure, judged on its lowercase form.
pub open spec fn has_error_marker(lower: Seq<char>) -> bool {
    ||| contains_seq(lower, "error"@)
    ||| contains_seq(lower, "failed"@)
    ||| contains_seq(lower, "failure"@)
    ||| contains_seq(lower, " fail"@)
    ||| contains_seq(lower, "traceback"@)
    ||| contains_seq(lower, "panic"@)
    ||| contains_seq(lower, "exception"@)
    ||| contains_seq(lower, "assertionerror"@)
    ||| contains_seq(lower, "not ok"@)
    ||| contains_seq(lower, "✗"@)
    ||| contains_seq(lower, "fatal"@)
}

/// Output text that reads as a success, judged on its lowercase form.
pub open spec fn has_success_marker(lower: Seq<char>) -> bool {
    ||| contains_seq(lower, "passed"@)
    ||| contains_seq(lower, "all tests pass"@)
    ||| contains_seq(lower, " ok"@)
    ||| contains_seq(lower, "success"@)
    ||| contains_seq(lower, "✓"@)
    ||| contains_seq(lower, "0 failures"@)
    ||| contains_seq(lower, "build succeeded"@)
}

/// A line that looks like the error of multi-line output.
pub open spec fn line_looks_failing(l: Seq<char>) -> bool {
    let x = std_lowercase(l);
    contains_seq(x, "error"@) || contains_seq(x, "fail"@) || contains_seq(x, "exception"@) || contains_seq(x, "panic"@)
}

pub open spec fn first_failing_at(ls: Seq<Seq<char>>, i: int) -> bool {
    &&& 0 <= i < ls.len()
    &&& line_looks_failing(ls[i])
    &&& forall|j: int| 0 <= j < i ==> !line_looks_failing(ls[j])
}

pub open spec fn first_nonblank_at(ls: Seq<Seq<char>>, i: int) -> bool {
    &&& 0 <= i < ls.len()
    &&& trim(ls[i]).len() > 0
    &&& forall|j: int| 0 <= j < i ==> trim(ls[j]).len() == 0
}

/// The line a signature is taken from: the first line that looks like an
/// error, else the first non-blank line, else nothing.
pub open spec fn pick_line(ls: Seq<Seq<char>>) -> Seq<char> {
    if exists|i: int| first_failing_at(ls, i) {
        ls[choose|i: int| first_failing_at(ls, i)]
    } else if exists|i: int| first_nonblank_at(ls, i) {
        ls[choose|i: int| first_nonblank_at(ls, i)]
    } else {
        Seq::empty()
    }
}

/// Longest signature, in characters.
pub const MAX_SIGNATURE: usize = 200;

/// A stable signature for multi-line output: the picked line, trimmed, and
/// cut to `MAX_SIGNATURE` characters.
pub open spec fn spec_signature_of(text: Seq<char>) -> Seq<char> {
    let t = trim(pick_line(lines(text)));
    if t.len() <= MAX_SIGNATURE { t } else { t.take(MAX_SIGNATURE as int) }
}

proof fn lemma_first_at_unique_failing(ls: Seq<Seq<char>>, i: int)
    requires
        first_failing_at(ls, i),
    ensures
        (choose|k: int| first_failing_at(ls, k)) == i,
{
    let c = choose|k: int| first_failing_at(ls, k);
    assert(first_failing_at(ls, c));
    if c < i {
        assert(!line_looks_failing(ls[c]));
    } else if c > i {
        assert(!line_looks_failing(ls[i]));
    }
}

proof fn lemma_first_at_unique_nonblank(ls: Seq<Seq<char>>, i: int)
    requires
        first_nonblank_at(ls, i),
    ensures
        (choose|k: int| first_nonblank_at(ls, k)) == i,
{
    let c = choose|k: int| first_nonblank_at(ls, k);
    assert(first_nonblank_at(ls, c));
    if c < i {
        assert(trim(ls[c]).len() == 0);
    } else if c > i {
        assert(trim(ls[i]).len() == 0);
    }
}

fn looks_failing(l: &Vec<char>) -> (r: bool)
    ensures
        r == line_looks_failing(l@),
{
    let s = string_of(l);
    let low = to_chars(lowercase(s.as_str()).as_str());
    contains_str(&low, "error") || contains_str(&low, "fail") || contains_str(&low, "exception")
        || contains_str(&low, "panic")
}

/// Pick a stable signature line from multi-line output.
pub fn signature_of(text: &str) -> (r: String)
    ensures
        r@ == spec_signature_of(text@),
{
    let cs = to_chars(text);
    let ls = split_lines(&cs);
    let ghost lv = ls@.map_values(|l: Vec<char>| l@);
    assert(lv == lines(text@));
    let n = ls.len();
    let mut pick: Option<usize> = None;
    let mut i: usize = 0;
    while i < n && pick.is_none()
        invariant
            i <= n,
            n == ls@.len(),
            lv == ls@.map_values(|l: Vec<char>| l@),
            match pick {
                Some(k) => k < n && first_failing_at(lv, k as int),
                None => forall|j: int| 0 <= j < i ==> !line_looks_failing(lv[j]),
            },
        decreases n - i,
    {
        if looks_failing(&ls[i]) {
            assert(first_failing_at(lv, i as int));
            pick = Some(i);
        }
        i = i + 1;
    }
    let picked: Vec<char> = match pick {
        Some(i) => {
            proof {
                lemma_first_at_unique_failing(lv, i as int);
            }
            trim_chars(&ls[i])
        },
        None => {
            assert forall|k: int| !first_failing_at(lv, k) by {
                if first_failing_at(lv, k) {
                    assert(!line_looks_failing(lv[k]));
                }
            }
            let mut found: Option<Vec<char>> = None;
            for i in 0..n
                invariant
                    n == ls@.len(),
                    lv == ls@.map_values(|l: Vec<char>| l@),
                    !exists|k: int| first_failing_at(lv, k),
                    match found {
                        Some(t) => t@ == trim(pick_line(lv)),
                        None => forall|j: int| 0 <= j < i ==> trim(lv[j]).len() == 0,
                    },
            {
                if found.is_none() {
                    let t = trim_chars(&ls[i]);
                    if t.len() > 0 {
                        proof {
                            assert(first_nonblank_at(lv, i as int));
                            lemma_first_at_unique_nonblank(lv, i as int);
                        }
                        found = Some(t);
                    }
                }
            }
            match found {
                Some(t) => t,
                None => {
                    assert(!exists|i: int| first_nonblank_at(lv, i));
                    assert(trim(Seq::<char>::empty()) =~= Seq::<char>::empty());
                    Vec::new()
                },
            }
        },
    };
    let cut = take_chars(&picked, MAX_SIGNATURE);
    string_of(&cut)
}

/// How free-text output without an explicit error flag is classified.
pub open spec fn spec_classify_text(text: Seq<char>) -> (ObservationKind, Seq<char>) {
    let lower = std_lowercase(text);
    if has_error_marker(lower) {
        (ObservationKind::Error, spec_signature_of(text))
    } else if has_success_marker(lower) {
        (ObservationKind::Success, Seq::empty())
    } else {
        (ObservationKind::Neutral, spec_signature_of(text))
    }
}

/// Classify command or test output that carries no explicit error flag.
pub fn classify_text(text: &str) -> (o: Observation)
    ensures
        o@ == spec_classify_text(text@),
{
    let lower = to_chars(lowercase(text).as_str());
    let err = contains_str(&lower, "error") || contains_str(&lower, "failed") || contains_str(&lower, "failure")
        || contains_str(&lower, " fail") || contains_str(&lower, "traceback") || contains_str(&lower, "panic")
        || contains_str(&lower, "exception") || contains_str(&lower, "assertionerror")
        || contains_str(&lower, "not ok") || contains_str(&lower, "✗") || contains_str(&lower, "fatal");
    if err {
        let sig = signature_of(text);
        return Observation::error(sig.as_str());
    }
    let ok = contains_str(&lower, "passed") || contains_str(&lower, "all tests pass") || contains_str(&lower, " ok")
        || contains_str(&lower, "success") || contains_str(&lower, "✓") || contains_str(&lower, "0 failures")
        || contains_str(&lower, "build succeeded");
    if ok {
        Observation::success()
    } else {
        let sig = signature_of(text);
        Observation::neutral(sig.as_str())
    }
}

/// The `text` members of an array of blocks, in order, skipping blocks
/// without a string `text`.
pub open spec fn texts_of(arr: Seq<JsonView>) -> Seq<Seq<char>>
    decreases arr.len(),
{
    if arr.len() == 0 {
        Seq::empty()
    } else {
        let t = texts_of(arr.drop_last());
        match member_str(arr.last(), "text"@) {
            Some(s) => t.push(s),
            None => t,
        }
    }
}

/// Parts joined with line feeds.
pub open spec fn join_lines(parts: Seq<Seq<char>>) -> Seq<char>
    decreases parts.len(),
{
    if parts.len() == 0 {
        Seq::empty()
    } else if parts.len() == 1 {
        parts[0]
    } else {
        join_lines(parts.drop_last()) + seq!['\n'] + parts.last()
    }
}

/// The text payload of a `tool_result` block: its string content, or the
/// `text` of its content blocks joined by line feeds.
pub open spec fn spec_tool_result_text(block: JsonView) -> Seq<char> {
    match member(block, "content"@) {
        Some(JsonView::Str(s)) => s,
        Some(JsonView::Array(arr)) => join_lines(texts_of(arr)),
        _ => Seq::empty(),
    }
}

fn tool_result_text(block: &Json) -> (r: String)
    ensures
        r@ == spec_tool_result_text(block@),
{
    let c = match block.get("content") {
        Some(c) => c,
        None => {
            return String::new();
        },
    };
    if let Some(s) = c.as_str() {
        return s.clone();
    }
    let arr = match c.as_array() {
        Some(arr) => arr,
        None => {
            return String::new();
        },
    };
    let ghost a = array_of(c@)->0;
    assert(c@ == JsonView::Array(a));
    let mut out = String::new();
    let mut any = false;
    let n = arr.len();
    for i in 0..n
        invariant
            n == arr@.len(),
            a.len() == n,
            forall|j: int| 0 <= j < n ==> #[trigger] a[j] == arr@[j]@,
            any == (texts_of(a.take(i as int)).len() > 0),
            out@ == join_lines(texts_of(a.take(i as int))),
    {
        assert(a.take(i + 1).drop_last() =~= a.take(i as int));
        assert(a.take(i + 1).last() == arr@[i as int]@);
        match arr[i].get("text") {
            Some(t) => match t.as_str() {
                Some(s) => {
                    let ghost before = out@;
                    if any {
                        out.push('\n');
                    }
                    out.append(s.as_str());
                    proof {
                        let tp = texts_of(a.take(i + 1));
                        assert(tp == texts_of(a.take(i as int)).push(s@));
                        if any {
                            assert(tp.drop_last() =~= texts_of(a.take(i as int)));
                            assert(out@ =~= before + seq!['\n'] + s@);
                        } else {
                            assert(tp =~= seq![s@]);
                        }
                    }
                    any = true;
                },
                None => {},
            },
            None => {},
        }
    }
    assert(a.take(n as int) =~= a);
    out
}

/// Error outranks success, which outranks neutral.
pub open spec fn obs_rank(k: ObservationKind) -> nat {
    match k {
        ObservationKind::Error => 2,
        ObservationKind::Success => 1,
        ObservationKind::Neutral => 0,
    }
}

/// The stronger of two observations; the later one on a tie.
pub open spec fn spec_stronger(a: (ObservationKind, Seq<char>), b: (ObservationKind, Seq<char>)) -> (ObservationKind, Seq<char>) {
    if obs_rank(b.0) >= obs_rank(a.0) { b } else { a }
}

fn rank_of(k: ObservationKind) -> (r: u8)
    ensures
        r == obs_rank(k),
{
    match k {
        ObservationKind::Error => 2,
        ObservationKind::Success => 1,
        ObservationKind::Neutral => 0,
    }
}

/// The stronger of two observations: error dominates success dominates
/// neutral, and the later one wins a tie.
pub fn stronger(a: Observation, b: Observation) -> (r: Observation)
    ensures
        r@ == spec_stronger(a@, b@),
{
    if rank_of(b.kind) >= rank_of(a.kind) { b } else { a }
}

/// The outcome a block reports, if it is a `tool_result`.
pub open spec fn block_observation(b: JsonView) -> Option<(ObservationKind, Seq<char>)> {
    if member_str(b, "type"@) == Some("tool_result"@) {
        let flagged = match member(b, "is_error"@) {
            Some(v) => bool_of(v) == Some(true),
            None => false,
        };
        let text = spec_tool_result_text(b);
        Some(if flagged { (ObservationKind::Error, spec_signature_of(text)) } else { spec_classify_text(text) })
    } else {
        None
    }
}

/// All `tool_result` blocks of a message reduced to their strongest outcome.
pub open spec fn spec_strongest(blocks: Seq<JsonView>) -> Option<(ObservationKind, Seq<char>)>
    decreases blocks.len(),
{
    if blocks.len() == 0 {
        None
    } else {
        let best = spec_strongest(blocks.drop_last());
        match block_observation(blocks.last()) {
            None => best,
            Some(o) => match best {
                None => Some(o),
                Some(p) => Some(spec_stronger(p, o)),
            },
        }
    }
}

/// Whether `j` is a string equal to the literal `lit`.
fn is_str(j: Option<&Json>, lit: &str) -> (r: bool)
    ensures
        r == (match j {
            Some(v) => str_of(v@) == Some(lit@),
            None => false,
        }),
{
    match j {
        Some(v) => match v.as_str() {
            Some(s) => *s == lit.to_owned(),
            None => false,
        },
        None => false,
    }
}

fn block_obs(b: &Json) -> (r: Option<Observation>)
    ensures
        match r {
            Some(o) => block_observation(b@) == Some(o@),
            None => block_observation(b@) is None,
        },
{
    if !is_str(b.get("type"), "tool_result") {
        return None;
    }
    let flagged = match b.get("is_error") {
        Some(v) => match v.as_bool() {
            Some(x) => x,
            None => false,
        },
        None => false,
    };
    let text = tool_result_text(b);
    if flagged {
        let sig = signature_of(text.as_str());
        Some(Observation::error(sig.as_str()))
    } else {
        Some(classify_text(text.as_str()))
    }
}

/// Reduce a user message's `tool_result` blocks to a single observation.
pub fn strongest_observation(blocks: &Vec<Json>) -> (r: Option<Observation>)
    ensures
        match r {
            Some(o) => spec_strongest(blocks@.map_values(|b: Json| b@)) == Some(o@),
            None => spec_strongest(blocks@.map_values(|b: Json| b@)) is None,
        },
{
    let ghost bv = blocks@.map_values(|b: Json| b@);
    let mut best: Option<Observation> = None;
    let n = blocks.len();
    for i in 0..n
        invariant
            n == blocks@.len(),
            bv == blocks@.map_values(|b: Json| b@),
            match best {
                Some(o) => spec_strongest(bv.take(i as int)) == Some(o@),
                None => spec_strongest(bv.take(i as int)) is None,
            },
    {
        assert(bv.take(i + 1).drop_last() =~= bv.take(i as int));
        assert(bv.take(i + 1).last() == blocks@[i as int]@);
        match block_obs(&blocks[i]) {
            Some(o) => {
                best = match best {
                    Some(p) => Some(stronger(p, o)),
                    None => Some(o),
                };
            },
            None => {},
        }
    }
    assert(bv.take(n as int) =~= bv);
    best
}

/// The lowercase `name` contains one of the needles.
pub open spec fn name_has(name: Seq<char>, needles: Seq<Seq<char>>) -> bool {
    exists|i: int| 0 <= i < needles.len() && contains_seq(std_lowercase(name), #[trigger] needles[i])
}

/// Whether the lowercase `name` contains one of `needles`.
pub fn name_matches(name: &str, needles: &Vec<&str>) -> (r: bool)
    ensures
        r == name_has(name@, needles@.map_values(|s: &str| s@)),
{
    let n = to_chars(lowercase(name).as_str());
    let ghost nv = needles@.map_values(|s: &str| s@);
    let k = needles.len();
    for i in 0..k
        invariant
            k == needles@.len(),
            nv == needles@.map_values(|s: &str| s@),
            n@ == std_lowercase(name@),
            forall|j: int| 0 <= j < i ==> !contains_seq(n@, #[trigger] nv[j]),
    {
        if contains_str(&n, needles[i]) {
            assert(contains_seq(std_lowercase(name@), nv[i as int]));
            return true;
        }
    }
    false
}

/// Tool names that read a file.
pub open spec fn read_names() -> Seq<Seq<char>> {
    seq!["read"@, "view"@, "open"@, "cat"@]
}

/// Tool names that write a file.
pub open spec fn edit_names() -> Seq<Seq<char>> {
    seq!["edit"@, "write"@, "str_replace"@, "create"@, "insert"@]
}

/// The view of an optional member, `Null` when absent.
pub open spec fn or_null(j: Option<JsonView>) -> JsonView {
    match j {
        Some(v) => v,
        None => JsonView::Null,
    }
}

/// The file a tool call names: its `path`, else its `file_path`, if a string.
pub open spec fn tool_path(input: JsonView) -> Option<Seq<char>> {
    match member(input, "path"@) {
        Some(v) => str_of(v),
        None => member_str(input, "file_path"@),
    }
}

/// The body a file tool writes: the first present of `file_text`, `content`,
/// `new_str`, `new_string`, if a string; else empty.
pub open spec fn tool_content(input: JsonView) -> Seq<char> {
    let v = match member(input, "file_text"@) {
        Some(v) => Some(v),
        None => match member(input, "content"@) {
            Some(v) => Some(v),
            None => match member(input, "new_str"@) {
                Some(v) => Some(v),
                None => member(input, "new_string"@),
            },
        },
    };
    match v {
        Some(v) => match str_of(v) {
            Some(s) => s,
            None => Seq::empty(),
        },
        None => Seq::empty(),
    }
}

/// One assistant block: a file tool call adds an edit or a read. A call whose
/// `command` is `view` is a read, whatever its tool is named.
pub open spec fn tool_use_step(edits: Seq<EditView>, reads: Seq<Seq<char>>, b: JsonView) -> (Seq<EditView>, Seq<Seq<char>>) {
    if member_str(b, "type"@) != Some("tool_use"@) {
        (edits, reads)
    } else {
        let name = match member_str(b, "name"@) {
            Some(n) => n,
            None => Seq::empty(),
        };
        let input = or_null(member(b, "input"@));
        let command = member_str(input, "command"@);
        let path = tool_path(input);
        let is_read = name_has(name, read_names()) || command == Some("view"@);
        let is_edit = (name_has(name, edit_names()) && command != Some("view"@)) || command == Some("str_replace"@)
            || command == Some("create"@) || command == Some("insert"@) || command == Some("write"@);
        if is_edit {
            match path {
                Some(p) => (edits.push(EditView { path: p, content: tool_content(input) }), reads),
                None => (edits, reads),
            }
        } else if is_read {
            match path {
                Some(p) => (edits, reads.push(p)),
                None => (edits, reads),
            }
        } else {
            (edits, reads)
        }
    }
}

/// The member `key` of an optional value (none for a missing value).
fn member_of<'a>(j: Option<&'a Json>, key: &str) -> (r: Option<&'a Json>)
    ensures
        match r {
            Some(v) => member(or_null(match j { Some(x) => Some(x@), None => None }), key@) == Some(v@),
            None => member(or_null(match j { Some(x) => Some(x@), None => None }), key@) is None,
        },
{
    match j {
        Some(x) => x.get(key),
        None => None,
    }
}

fn str_member(j: Option<&Json>, key: &str) -> (r: Option<String>)
    ensures
        match r {
            Some(s) => member_str(or_null(match j { Some(x) => Some(x@), None => None }), key@) == Some(s@),
            None => member_str(or_null(match j { Some(x) => Some(x@), None => None }), key@) is None,
        },
{
    match member_of(j, key) {
        Some(v) => match v.as_str() {
            Some(s) => Some(s.clone()),
            None => None,
        },
        None => None,
    }
}

fn opt_is(o: &Option<String>, lit: &str) -> (r: bool)
    ensures
        r == (match o { Some(x) => Some(x@), None => None::<Seq<char>> } == Some(lit@)),
{
    match o {
        Some(x) => *x == lit.to_owned(),
        None => false,
    }
}

/// Inspect one assistant block; record an edit or a read if it is a file tool.
pub fn classify_tool_use(block: &Json, edits: &mut Vec<FileEdit>, reads: &mut Vec<String>)
    ensures
        (final(edits)@.map_values(|e: FileEdit| e@), final(reads)@.map_values(|r: String| r@)) == tool_use_step(
            old(edits)@.map_values(|e: FileEdit| e@),
            old(reads)@.map_values(|r: String| r@),
            block@,
        ),
{
    if !is_str(block.get("type"), "tool_use") {
        return;
    }
    let name = match str_member(Some(block), "name") {
        Some(n) => n,
        None => String::new(),
    };
    let input = block.get("input");
    let ghost iv = or_null(match input { Some(x) => Some(x@), None => None });
    let command = str_member(input, "command");
    let path: Option<String> = match member_of(input, "path") {
        Some(v) => match v.as_str() {
            Some(p) => Some(p.clone()),
            None => None,
        },
        None => str_member(input, "file_path"),
    };
    assert(match path { Some(p) => tool_path(iv) == Some(p@), None => tool_path(iv) is None });
    let read_names_v: Vec<&str> = vec!["read", "view", "open", "cat"];
    let edit_names_v: Vec<&str> = vec!["edit", "write", "str_replace", "create", "insert"];
    assert(read_names_v@.map_values(|s: &str| s@) =~= read_names());
    assert(edit_names_v@.map_values(|s: &str| s@) =~= edit_names());
    let is_view = opt_is(&command, "view");
    let is_read = name_matches(name.as_str(), &read_names_v) || is_view;
    let is_edit = (name_matches(name.as_str(), &edit_names_v) && !is_view) || opt_is(&command, "str_replace")
        || opt_is(&command, "create") || opt_is(&command, "insert") || opt_is(&command, "write");
    let ghost ev = old(edits)@.map_values(|e: FileEdit| e@);
    let ghost rv = old(reads)@.map_values(|r: String| r@);
    if is_edit {
        if let Some(p) = path {
            let content = match member_of(input, "file_text") {
                Some(v) => Some(v),
                None => match member_of(input, "content") {
                    Some(v) => Some(v),
                    None => match member_of(input, "new_str") {
                        Some(v) => Some(v),
                        None => member_of(input, "new_string"),
                    },
                },
            };
            let body = match content {
                Some(v) => match v.as_str() {
                    Some(s) => s.clone(),
                    None => String::new(),
                },
                None => String::new(),
            };
            assert(body@ == tool_content(iv));
            edits.push(FileEdit { path: p, content: body });
            assert(edits@.map_values(|e: FileEdit| e@) =~= ev.push(EditView { path: p@, content: tool_content(iv) }));
        }
    } else if is_read {
        if let Some(p) = path {
            reads.push(p);
            assert(reads@.map_values(|r: String| r@) =~= rv.push(p@));
        }
    }
}

/// All blocks of an assistant message, in order.
pub open spec fn uses_fold(edits: Seq<EditView>, reads: Seq<Seq<char>>, blocks: Seq<JsonView>) -> (Seq<EditView>, Seq<Seq<char>>)
    decreases blocks.len(),
{
    if blocks.len() == 0 {
        (edits, reads)
    } else {
        let (e, r) = uses_fold(edits, reads, blocks.drop_last());
        tool_use_step(e, r, blocks.last())
    }
}

/// A message's content blocks; none when its content is not an array.
pub open spec fn content_blocks(msg: JsonView) -> Seq<JsonView> {
    match member(msg, "content"@) {
        Some(JsonView::Array(a)) => a,
        _ => Seq::empty(),
    }
}

/// A message's role, if it has a string one.
pub open spec fn role_of(msg: JsonView) -> Option<Seq<char>> {
    member_str(msg, "role"@)
}

/// The turns closed so far, and the edits and reads still pending.
pub type Extraction = (Seq<TurnView>, Seq<EditView>, Seq<Seq<char>>);

/// One message: an assistant message adds pending edits and reads; a user
/// message whose strongest outcome is an error or a success closes a turn
/// with them; anything else changes nothing.
pub open spec fn message_step(acc: Extraction, msg: JsonView) -> Extraction {
    let (ts, es, rs) = acc;
    let role = role_of(msg);
    let blocks = content_blocks(msg);
    if role == Some("assistant"@) {
        let (e2, r2) = uses_fold(es, rs, blocks);
        (ts, e2, r2)
    } else if role == Some("user"@) {
        match spec_strongest(blocks) {
            Some(o) => if o.0 != ObservationKind::Neutral {
                (
                    ts.push(TurnView { edits: es, reads: rs, kind: o.0, signature: o.1, note: None }),
                    Seq::empty(),
                    Seq::empty(),
                )
            } else {
                acc
            },
            None => acc,
        }
    } else {
        acc
    }
}

pub open spec fn messages_fold(msgs: Seq<JsonView>) -> Extraction
    decreases msgs.len(),
{
    if msgs.len() == 0 {
        (Seq::empty(), Seq::empty(), Seq::empty())
    } else {
        message_step(messages_fold(msgs.drop_last()), msgs.last())
    }
}

/// The `messages` array of a request body; none when it has none.
pub open spec fn messages_of(body: JsonView) -> Seq<JsonView> {
    match member(body, "messages"@) {
        Some(JsonView::Array(a)) => a,
        _ => Seq::empty(),
    }
}

/// The behavioural turns of a request body, in order.
pub open spec fn spec_extract_turns(body: JsonView) -> Seq<TurnView> {
    messages_fold(messages_of(body)).0
}

/// The array member `key` of a value as a vector, with its view.
fn array_member<'a>(j: &'a Json, key: &str) -> (r: Option<&'a Vec<Json>>)
    ensures
        match r {
            Some(v) => member(j@, key@) matches Some(JsonView::Array(a)) && a =~= v@.map_values(|x: Json| x@),
            None => !(member(j@, key@) matches Some(JsonView::Array(_))),
        },
{
    match j.get(key) {
        Some(v) => {
            let r = v.as_array();
            proof {
                if r is Some {
                    let a = array_of(v@)->0;
                    assert(a =~= r->0@.map_values(|x: Json| x@));
                }
            }
            r
        },
        None => None,
    }
}

/// Recover the ordered list of behavioural turns from a request body.
pub fn extract_turns(body: &Json) -> (turns: Vec<Turn>)
    ensures
        turns@.map_values(|t: Turn| t@) == spec_extract_turns(body@),
{
    let mut turns: Vec<Turn> = Vec::new();
    let messages = match array_member(body, "messages") {
        Some(m) => m,
        None => {
            assert(messages_of(body@) =~= Seq::<JsonView>::empty());
            assert(turns@.map_values(|t: Turn| t@) =~= Seq::<TurnView>::empty());
            return turns;
        },
    };
    let ghost mv = messages@.map_values(|x: Json| x@);
    assert(mv == messages_of(body@));
    let mut edits: Vec<FileEdit> = Vec::new();
    let mut reads: Vec<String> = Vec::new();
    let no_blocks: Vec<Json> = Vec::new();
    let n = messages.len();
    assert(turns@.map_values(|t: Turn| t@) =~= Seq::<TurnView>::empty());
    assert(edits@.map_values(|e: FileEdit| e@) =~= Seq::<EditView>::empty());
    assert(reads@.map_values(|r: String| r@) =~= Seq::<Seq<char>>::empty());
    for i in 0..n
        invariant
            n == messages@.len(),
            mv == messages@.map_values(|x: Json| x@),
            no_blocks@.len() == 0,
            messages_fold(mv.take(i as int)) == (
                turns@.map_values(|t: Turn| t@),
                edits@.map_values(|e: FileEdit| e@),
                reads@.map_values(|r: String| r@),
            ),
    {
        assert(mv.take(i + 1).drop_last() =~= mv.take(i as int));
        assert(mv.take(i + 1).last() == messages@[i as int]@);
        let msg = &messages[i];
        let ghost acc = messages_fold(mv.take(i as int));
        assert(messages_fold(mv.take(i + 1)) == message_step(acc, msg@));
        let blocks: &Vec<Json> = match array_member(msg, "content") {
            Some(b) => b,
            None => &no_blocks,
        };
        let ghost bv = blocks@.map_values(|x: Json| x@);
        assert(bv =~= content_blocks(msg@));
        let role = str_member(Some(msg), "role");
        assert(opt_string_view(role) == role_of(msg@));
        if opt_is(&role, "assistant") {
            let nb = blocks.len();
            let ghost e0 = edits@.map_values(|e: FileEdit| e@);
            let ghost r0 = reads@.map_values(|r: String| r@);
            assert(bv.take(0) =~= Seq::<JsonView>::empty());
            for k in 0..nb
                invariant
                    nb == blocks@.len(),
                    bv == blocks@.map_values(|x: Json| x@),
                    uses_fold(e0, r0, bv.take(k as int)) == (
                        edits@.map_values(|e: FileEdit| e@),
                        reads@.map_values(|r: String| r@),
                    ),
            {
                assert(bv.take(k + 1).drop_last() =~= bv.take(k as int));
                assert(bv.take(k + 1).last() == blocks@[k as int]@);
                classify_tool_use(&blocks[k], &mut edits, &mut reads);
            }
            assert(bv.take(nb as int) =~= bv);
            assert(message_step(acc, msg@) == (
                turns@.map_values(|t: Turn| t@),
                edits@.map_values(|e: FileEdit| e@),
                reads@.map_values(|r: String| r@),
            ));
        } else if opt_is(&role, "user") {
            match strongest_observation(blocks) {
                Some(obs) => {
                    if obs.kind != ObservationKind::Neutral {
                        let mut te: Vec<FileEdit> = Vec::new();
                        let mut tr: Vec<String> = Vec::new();
                        std::mem::swap(&mut te, &mut edits);
                        std::mem::swap(&mut tr, &mut reads);
                        let t = Turn { edits: te, reads: tr, observation: obs, note: None };
                        let ghost before = turns@.map_values(|t: Turn| t@);
                        turns.push(t);
                        assert(turns@.map_values(|t: Turn| t@) =~= before.push(t@));
                        assert(edits@.map_values(|e: FileEdit| e@) =~= Seq::<EditView>::empty());
                        assert(reads@.map_values(|r: String| r@) =~= Seq::<Seq<char>>::empty());
                    }
                },
                None => {},
            }
            assert(message_step(acc, msg@) == (
                turns@.map_values(|t: Turn| t@),
                edits@.map_values(|e: FileEdit| e@),
                reads@.map_values(|r: String| r@),
            ));
        } else {
            assert(message_step(acc, msg@) == acc);
        }
    }
    assert(mv.take(n as int) =~= mv);
    turns
}

/// The detector state after the turns `ts`, from `m`.
pub open spec fn run(m: DetectorModel, ts: Seq<TurnView>) -> DetectorModel
    decreases ts.len(),
{
    if ts.len() == 0 {
        m
    } else {
        step(run(m, ts.drop_last()), ts.last()).0
    }
}

/// Edits over all turns.
pub open spec fn total_edits(ts: Seq<TurnView>) -> nat
    decreases ts.len(),
{
    if ts.len() == 0 { 0 } else { total_edits(ts.drop_last()) + ts.last().edits.len() }
}

/// Reads over all turns.
pub open spec fn total_reads(ts: Seq<TurnView>) -> nat
    decreases ts.len(),
{
    if ts.len() == 0 { 0 } else { total_reads(ts.drop_last()) + ts.last().reads.len() }
}

/// The intervention, if any, of the last of `ts` replayed through a fresh
/// detector with `policy`.
pub open spec fn spec_analyze_turns(ts: Seq<TurnView>, policy: ThrashPolicy) -> Option<InterventionView> {
    if ts.len() == 0 {
        None
    } else {
        step(run(initial_model(policy), ts.drop_last()), ts.last()).1.intervention
    }
}

proof fn lemma_fold_counters(m: DetectorModel, idx: nat, kind: ObservationKind, sig: Seq<char>, edits: Seq<EditView>)
    ensures
        crate::detector::edits_fold(m, idx, kind, sig, edits).0.edits_seen == m.edits_seen + edits.len(),
        crate::detector::edits_fold(m, idx, kind, sig, edits).0.reads_seen == m.reads_seen,
        crate::detector::edits_fold(m, idx, kind, sig, edits).0.turn_index == m.turn_index,
    decreases edits.len(),
{
    if edits.len() > 0 {
        lemma_fold_counters(m, idx, kind, sig, edits.drop_last());
    }
}

/// A turn adds its edits and reads to the counters and advances the index.
pub proof fn lemma_step_counters(m: DetectorModel, t: TurnView)
    ensures
        step(m, t).0.edits_seen == m.edits_seen + t.edits.len(),
        step(m, t).0.reads_seen == m.reads_seen + t.reads.len(),
        step(m, t).0.turn_index == m.turn_index + 1,
{
    lemma_fold_counters(crate::detector::after_reads(m, t), m.turn_index, t.kind, t.signature, t.edits);
}

proof fn lemma_totals_prefix(ts: Seq<TurnView>, i: int)
    requires
        0 <= i <= ts.len(),
    ensures
        total_edits(ts.take(i)) <= total_edits(ts),
        total_reads(ts.take(i)) <= total_reads(ts),
    decreases ts.len() - i,
{
    if i < ts.len() {
        lemma_totals_prefix(ts, i + 1);
        assert(ts.take(i + 1).drop_last() =~= ts.take(i));
    } else {
        assert(ts.take(i) =~= ts);
    }
}

/// Replay turns through a fresh detector and return the intervention of the
/// last turn, if it trips.
pub fn analyze_turns(turns: &Vec<Turn>, policy: ThrashPolicy) -> (r: Option<Intervention>)
    requires
        total_edits(turns@.map_values(|t: Turn| t@)) <= u32::MAX,
        total_reads(turns@.map_values(|t: Turn| t@)) <= u32::MAX,
    ensures
        match r {
            Some(i) => spec_analyze_turns(turns@.map_values(|t: Turn| t@), policy) == Some(i@),
            None => spec_analyze_turns(turns@.map_values(|t: Turn| t@), policy) is None,
        },
{
    let ghost tv = turns@.map_values(|t: Turn| t@);
    let n = turns.len();
    if n == 0 {
        return None;
    }
    let mut det = ThrashDetector::new(policy);
    let mut last: Option<Intervention> = None;
    assert(tv.take(0) =~= Seq::<TurnView>::empty());
    for i in 0..n
        invariant
            n == turns@.len(),
            n > 0,
            tv == turns@.map_values(|t: Turn| t@),
            total_edits(tv) <= u32::MAX,
            total_reads(tv) <= u32::MAX,
            det@ == run(initial_model(policy), tv.take(i as int)),
            det@.edits_seen == total_edits(tv.take(i as int)),
            det@.reads_seen == total_reads(tv.take(i as int)),
            det@.turn_index == i,
            counts_bounded(det@),
            i > 0 ==> match last {
                Some(iv) => step(run(initial_model(policy), tv.take(i - 1)), tv[i - 1]).1.intervention == Some(iv@),
                None => step(run(initial_model(policy), tv.take(i - 1)), tv[i - 1]).1.intervention is None,
            },
    {
        let ghost pre = tv.take(i as int);
        assert(tv.take(i + 1).drop_last() =~= pre);
        assert(tv.take(i + 1).last() == turns@[i as int]@);
        proof {
            lemma_totals_prefix(tv, i + 1);
            lemma_step_counters(det@, turns@[i as int]@);
        }
        let v = det.ingest(&turns[i]);
        last = v.intervention;
    }
    assert(tv.take(n as int) =~= tv);
    assert(tv.take(n - 1) =~= tv.drop_last());
    last
}

/// Analyse a Messages API request body: the intervention iff the most recent
/// turn of the conversation crosses the trip threshold. Bodies whose edits or
/// reads overflow the detector's counters get `None`.
pub fn analyze(body: &Json, policy: ThrashPolicy) -> (r: Option<Intervention>)
    ensures
        ({
            let ts = spec_extract_turns(body@);
            if total_edits(ts) <= u32::MAX && total_reads(ts) <= u32::MAX {
                match r {
                    Some(i) => spec_analyze_turns(ts, policy) == Some(i@),
                    None => spec_analyze_turns(ts, policy) is None,
                }
            } else {
                r is None
            }
        }),
{
    let turns = extract_turns(body);
    let ghost tv = turns@.map_values(|t: Turn| t@);
    let n = turns.len();
    let mut edits: u64 = 0;
    let mut reads: u64 = 0;
    assert(tv.take(0) =~= Seq::<TurnView>::empty());
    for i in 0..n
        invariant
            n == turns@.len(),
            tv == turns@.map_values(|t: Turn| t@),
            tv == spec_extract_turns(body@),
            edits == total_edits(tv.take(i as int)),
            reads == total_reads(tv.take(i as int)),
            edits <= u32::MAX,
            reads <= u32::MAX,
    {
        assert(tv.take(i + 1).drop_last() =~= tv.take(i as int));
        assert(tv.take(i + 1).last() == turns@[i as int]@);
        let e = turns[i].edits.len() as u64;
        let rd = turns[i].reads.len() as u64;
        if e > 4294967295u64 - edits || rd > 4294967295u64 - reads {
            proof {
                lemma_totals_prefix(tv, i + 1);
                assert(total_edits(tv.take(i + 1)) == edits + e);
                assert(total_reads(tv.take(i + 1)) == reads + rd);
            }
            return None;
        }
        edits = edits + e;
        reads = reads + rd;
    }
    assert(tv.take(n as int) =~= tv);
    analyze_turns(&turns, policy)
}

/// The trailing `role: "system"` message that carries a note.
pub open spec fn system_message_json(msg: Seq<char>) -> JsonView {
    JsonView::Object(seq![("role"@, JsonView::Str("system"@)), ("content"@, JsonView::Str(msg))])
}

/// A request body with the note appended to its `messages` array; any other
/// body is unchanged.
pub open spec fn spec_inject(body: JsonView, msg: Seq<char>) -> JsonView {
    match body {
        JsonView::Object(es) => {
            let i = assoc_index(es, "messages"@);
            if 0 <= i {
                match es[i].1 {
                    JsonView::Array(a) => JsonView::Object(
                        es.update(i, ("messages"@, JsonView::Array(a.push(system_message_json(msg))))),
                    ),
                    _ => body,
                }
            } else {
                body
            }
        },
        _ => body,
    }
}

fn system_message(msg: &String) -> (j: Json)
    ensures
        j@ == system_message_json(msg@),
{
    let mut es: Vec<(String, Json)> = Vec::new();
    es.push(("role".to_owned(), Json::Str("system".to_owned())));
    es.push(("content".to_owned(), Json::Str(msg.clone())));
    let j = Json::Object(es);
    assert(j@ =~= system_message_json(msg@)) by {
        reveal_with_fuel(json_view, 2);
        let v = match j@ {
            JsonView::Object(v) => v,
            _ => Seq::empty(),
        };
        assert(v =~= seq![("role"@, JsonView::Str("system"@)), ("content"@, JsonView::Str(msg@))]);
    }
    j
}

/// Inject the intervention as a trailing `role: "system"` message and return
/// the modified body.
pub fn inject(body: Json, interv: &Intervention) -> (r: Json)
    ensures
        r@ == spec_inject(body@, interv.system_message@),
{
    let ghost bv = body@;
    match body {
        Json::Object(mut es) => {
            let ghost vs = match bv {
                JsonView::Object(vs) => vs,
                _ => Seq::empty(),
            };
            assert(vs.len() == es@.len());
            assert(forall|j: int| 0 <= j < es@.len() ==> #[trigger] vs[j] == (es@[j].0@, json_view(es@[j].1)));
            let key = "messages".to_owned();
            let n = es.len();
            let mut found: Option<usize> = None;
            let mut i: usize = 0;
            while i < n && found.is_none()
                invariant
                    i <= n,
                    n == es@.len(),
                    vs.len() == n,
                    key@ == "messages"@,
                    forall|j: int| 0 <= j < n ==> #[trigger] vs[j] == (es@[j].0@, json_view(es@[j].1)),
                    match found {
                        Some(k) => k < n && assoc_index(vs, "messages"@) == k,
                        None => forall|j: int| 0 <= j < i ==> vs[j].0 != "messages"@,
                    },
                decreases n - i,
            {
                if es[i].0 == key {
                    proof {
                        lemma_assoc_index_at(vs, "messages"@, i as int);
                    }
                    found = Some(i);
                }
                i = i + 1;
            }
            match found {
                Some(k) => {
                    let (name, value) = es.remove(k);
                    match value {
                        Json::Array(mut a) => {
                            let ghost av = match json_view(Json::Array(a)) {
                                JsonView::Array(av) => av,
                                _ => Seq::empty(),
                            };
                            let ghost x = system_message_json(interv.system_message@);
                            a.push(system_message(&interv.system_message));
                            let nv = Json::Array(a);
                            assert(nv@ =~= JsonView::Array(av.push(x))) by {
                                let w = match nv@ {
                                    JsonView::Array(w) => w,
                                    _ => Seq::empty(),
                                };
                                assert(w =~= av.push(x));
                            }
                            let ghost nvv = nv@;
                            es.insert(k, (name, nv));
                            let r = Json::Object(es);
                            assert(r@ =~= spec_inject(bv, interv.system_message@)) by {
                                let w = match r@ {
                                    JsonView::Object(w) => w,
                                    _ => Seq::empty(),
                                };
                                assert(w =~= vs.update(k as int, ("messages"@, nvv)));
                            }
                            r
                        },
                        other => {
                            es.insert(k, (name, other));
                            let r = Json::Object(es);
                            assert(r@ =~= bv) by {
                                let w = match r@ {
                                    JsonView::Object(w) => w,
                                    _ => Seq::empty(),
                                };
                                assert(w =~= vs);
                            }
                            r
                        },
                    }
                },
                None => {
                    proof {
                        lemma_assoc_index_none(vs, "messages"@);
                    }
                    Json::Object(es)
                },
            }
        },
        other => other,
    }
}

} // verus!
