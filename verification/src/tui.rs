//! Terminal rendering for the replay demo: ANSI styling, a boxed note, word
//! wrapping, and the lines printed for each turn.
use vstd::prelude::*;
use crate::text::{is_ws, is_whitespace, lines, split_chars, split_lines, split_on, take_chars, to_chars, string_of};

verus! {

pub const RESET: &'static str = "\u{1b}[0m";
pub const BOLD: &'static str = "\u{1b}[1m";
pub const DIM: &'static str = "\u{1b}[2m";
pub const RED: &'static str = "\u{1b}[31m";
pub const GREEN: &'static str = "\u{1b}[32m";
pub const YELLOW: &'static str = "\u{1b}[33m";
pub const CYAN: &'static str = "\u{1b}[36m";
pub const GREY: &'static str = "\u{1b}[90m";
pub const RED_BG: &'static str = "\u{1b}[41m\u{1b}[97m";

/// `s` in `color`, with the style reset after it.
pub fn paint(color: &str, s: &str) -> (r: String)
    ensures
        r@ == color@ + s@ + RESET@,
{
    let mut r = String::new();
    r.append(color);
    r.append(s);
    r.append(RESET);
    r
}

/// `s` in bold.
pub fn bold(s: &str) -> (r: String)
    ensures
        r@ == BOLD@ + s@ + RESET@,
{
    paint(BOLD, s)
}

/// `s` dimmed.
pub fn dim(s: &str) -> (r: String)
    ensures
        r@ == DIM@ + s@ + RESET@,
{
    paint(DIM, s)
}

/// Scan for visible characters: the count so far and whether an escape
/// sequence (from ESC through the next `m`) is open.
pub open spec fn visible_scan(s: Seq<char>) -> (nat, bool)
    decreases s.len(),
{
    if s.len() == 0 {
        (0, false)
    } else {
        let (n, esc) = visible_scan(s.drop_last());
        let c = s.last();
        if esc {
            (n, c != 'm')
        } else if c == '\u{1b}' {
            (n, true)
        } else {
            (n + 1, false)
        }
    }
}

/// Number of characters of `s` outside ANSI escape sequences.
pub open spec fn visible_length(s: Seq<char>) -> nat {
    visible_scan(s).0
}

proof fn lemma_visible_le(s: Seq<char>)
    ensures
        visible_scan(s).0 <= s.len(),
    decreases s.len(),
{
    if s.len() > 0 {
        lemma_visible_le(s.drop_last());
    }
}

fn visible_len_chars(s: &Vec<char>) -> (n: usize)
    ensures
        n == visible_length(s@),
{
    let mut n: usize = 0;
    let mut esc = false;
    let len = s.len();
    for i in 0..len
        invariant
            len == s@.len(),
            (n as nat, esc) == visible_scan(s@.take(i as int)),
    {
        assert(s@.take(i + 1).drop_last() =~= s@.take(i as int));
        proof {
            lemma_visible_le(s@.take(i as int));
        }
        let c = s[i];
        if esc {
            if c == 'm' {
                esc = false;
            }
        } else if c == '\u{1b}' {
            esc = true;
        } else {
            n = n + 1;
        }
    }
    assert(s@.take(len as int) =~= s@);
    n
}

/// Visible length ignoring ANSI escape sequences.
pub fn visible_len(s: &str) -> (n: usize)
    ensures
        n == visible_length(s@),
{
    visible_len_chars(&to_chars(s))
}

/// `n` copies of `c`.
pub open spec fn repeat(c: char, n: nat) -> Seq<char> {
    Seq::new(n, |i: int| c)
}

/// Append `n` copies of `c`.
fn push_repeat(s: &mut String, c: char, n: usize)
    ensures
        final(s)@ == old(s)@ + repeat(c, n as nat),
{
    for i in 0..n
        invariant
            s@ == old(s)@ + repeat(c, i as nat),
    {
        s.push(c);
        assert(s@ =~= old(s)@ + repeat(c, (i + 1) as nat));
    }
}

/// Longest turn caption, in characters.
pub const SHORT_CHARS: usize = 60;

/// The first line of `s`, clipped to `SHORT_CHARS` characters with an
/// ellipsis when longer.
pub open spec fn spec_short(s: Seq<char>) -> Seq<char> {
    let first = if lines(s).len() > 0 { lines(s)[0] } else { s };
    if first.len() > SHORT_CHARS { first.take(SHORT_CHARS as int).push('…') } else { first }
}

/// A one-line caption of `s`.
pub fn short(s: &str) -> (r: String)
    ensures
        r@ == spec_short(s@),
{
    let cs = to_chars(s);
    let ls = split_lines(&cs);
    proof {
        assert(ls@.map_values(|l: Vec<char>| l@).len() == ls@.len());
    }
    let first: Vec<char> = if ls.len() > 0 {
        assert(ls@.map_values(|l: Vec<char>| l@)[0] == ls@[0]@);
        take_chars(&ls[0], usize::MAX)
    } else {
        take_chars(&cs, usize::MAX)
    };
    if first.len() > SHORT_CHARS {
        let mut clipped = take_chars(&first, SHORT_CHARS);
        clipped.push('…');
        string_of(&clipped)
    } else {
        string_of(&first)
    }
}

/// The whitespace-separated words of `s`, as `str::split_whitespace` yields them.
pub open spec fn words(s: Seq<char>) -> Seq<Seq<char>>
    decreases s.len(),
{
    if s.len() == 0 {
        Seq::empty()
    } else {
        let w = words(s.drop_last());
        let c = s.last();
        if is_ws(c) {
            w
        } else if s.len() >= 2 && !is_ws(s[s.len() - 2]) && w.len() > 0 {
            w.update(w.len() - 1, w.last().push(c))
        } else {
            w.push(seq![c])
        }
    }
}

fn words_of(s: &Vec<char>) -> (ws: Vec<Vec<char>>)
    ensures
        ws@.map_values(|w: Vec<char>| w@) == words(s@),
{
    let mut ws: Vec<Vec<char>> = Vec::new();
    let n = s.len();
    assert(ws@.map_values(|w: Vec<char>| w@) =~= words(s@.take(0)));
    for i in 0..n
        invariant
            n == s@.len(),
            ws@.map_values(|w: Vec<char>| w@) == words(s@.take(i as int)),
    {
        let ghost t = s@.take(i + 1);
        assert(t.drop_last() =~= s@.take(i as int));
        let ghost before = ws@.map_values(|w: Vec<char>| w@);
        let c = s[i];
        if !is_whitespace(c) {
            if i > 0 && !is_whitespace(s[i - 1]) && ws.len() > 0 {
                let last = ws.len() - 1;
                ws[last].push(c);
                assert(ws@.map_values(|w: Vec<char>| w@) =~= before.update(last as int, before.last().push(c)));
            } else {
                let mut w: Vec<char> = Vec::new();
                w.push(c);
                ws.push(w);
                assert(ws@.map_values(|w: Vec<char>| w@) =~= before.push(seq![c]));
            }
        }
    }
    assert(s@.take(n as int) =~= s@);
    ws
}

/// Lines finished so far and the line being filled.
pub type Fill = (Seq<Seq<char>>, Seq<char>);

/// Place one word: start a new line when it would not fit in `width`
/// columns after a space, then append it (after a space unless the line is
/// empty).
pub open spec fn fill_step(acc: Fill, w: Seq<char>, width: nat) -> Fill {
    let (done, line) = acc;
    let (done2, line2) = if line.len() > 0 && line.len() + 1 + w.len() > width {
        (done.push(line), Seq::empty())
    } else {
        (done, line)
    };
    (done2, if line2.len() > 0 { line2.push(' ') + w } else { line2 + w })
}

pub open spec fn fill(ws: Seq<Seq<char>>, width: nat) -> Fill
    decreases ws.len(),
{
    if ws.len() == 0 {
        (Seq::empty(), Seq::empty())
    } else {
        fill_step(fill(ws.drop_last(), width), ws.last(), width)
    }
}

/// The lines of one paragraph.
pub open spec fn wrap_paragraph(p: Seq<char>, width: nat) -> Seq<Seq<char>> {
    let (done, line) = fill(words(p), width);
    done.push(line)
}

/// The lines of all paragraphs, in order.
pub open spec fn wrap_all(ps: Seq<Seq<char>>, width: nat) -> Seq<Seq<char>>
    decreases ps.len(),
{
    if ps.len() == 0 { Seq::empty() } else { wrap_all(ps.drop_last(), width) + wrap_paragraph(ps.last(), width) }
}

/// Word-wrap to `width` columns: each line-feed-separated paragraph filled
/// greedily with its words.
pub open spec fn spec_wrap(text: Seq<char>, width: nat) -> Seq<Seq<char>> {
    wrap_all(split_on(text, '\n'), width)
}

fn wrap_para(p: &Vec<char>, width: usize, out: &mut Vec<String>)
    ensures
        final(out)@.map_values(|l: String| l@) == old(out)@.map_values(|l: String| l@) + wrap_paragraph(p@, width as nat),
{
    let ws = words_of(p);
    let ghost wv = ws@.map_values(|w: Vec<char>| w@);
    let mut done: Vec<String> = Vec::new();
    let mut line: Vec<char> = Vec::new();
    let n = ws.len();
    assert(wv.take(0) =~= Seq::<Seq<char>>::empty());
    assert(done@.map_values(|l: String| l@) =~= Seq::<Seq<char>>::empty());
    for k in 0..n
        invariant
            n == ws@.len(),
            wv == ws@.map_values(|w: Vec<char>| w@),
            fill(wv.take(k as int), width as nat) == (done@.map_values(|l: String| l@), line@),
    {
        assert(wv.take(k + 1).drop_last() =~= wv.take(k as int));
        assert(wv.take(k + 1).last() == ws@[k as int]@);
        let w = &ws[k];
        let ghost acc = fill(wv.take(k as int), width as nat);
        if line.len() > 0 && (line.len() as u128) + 1 + (w.len() as u128) > width as u128 {
            let ghost before = done@.map_values(|l: String| l@);
            let finished = string_of(&line);
            done.push(finished);
            assert(done@.map_values(|l: String| l@) =~= before.push(line@));
            line = Vec::new();
        }
        let ghost mid = line@;
        if line.len() > 0 {
            line.push(' ');
        }
        let ghost mid2 = line@;
        let m = w.len();
        for j in 0..m
            invariant
                m == w@.len(),
                line@ == mid2 + w@.take(j as int),
        {
            line.push(w[j]);
            assert(line@ =~= mid2 + w@.take(j + 1));
        }
        assert(w@.take(m as int) =~= w@);
    }
    assert(wv.take(n as int) =~= wv);
    let ghost d = done@.map_values(|l: String| l@);
    let last = string_of(&line);
    done.push(last);
    assert(done@.map_values(|l: String| l@) =~= d.push(line@));
    let ghost o = out@.map_values(|l: String| l@);
    let ghost add = done@.map_values(|l: String| l@);
    let dn = done.len();
    for j in 0..dn
        invariant
            dn == done@.len(),
            add == done@.map_values(|l: String| l@),
            out@.map_values(|l: String| l@) == o + add.take(j as int),
    {
        let ghost before = out@.map_values(|l: String| l@);
        let c = done[j].clone();
        assert(c@ == add[j as int]);
        out.push(c);
        assert(out@.map_values(|l: String| l@) =~= before.push(add[j as int]));
        assert(o + add.take(j + 1) =~= (o + add.take(j as int)).push(add[j as int]));
    }
    assert(add.take(dn as int) =~= add);
}

/// Word-wrap `text` to `width` columns (whitespace-naive, good enough for prose).
pub fn wrap(text: &str, width: usize) -> (ls: Vec<String>)
    ensures
        ls@.map_values(|l: String| l@) == spec_wrap(text@, width as nat),
{
    let cs = to_chars(text);
    let ps = split_chars(&cs, '\n');
    let ghost pv = ps@.map_values(|p: Vec<char>| p@);
    let mut out: Vec<String> = Vec::new();
    let n = ps.len();
    assert(pv.take(0) =~= Seq::<Seq<char>>::empty());
    assert(out@.map_values(|l: String| l@) =~= Seq::<Seq<char>>::empty());
    for i in 0..n
        invariant
            n == ps@.len(),
            pv == ps@.map_values(|p: Vec<char>| p@),
            out@.map_values(|l: String| l@) == wrap_all(pv.take(i as int), width as nat),
    {
        assert(pv.take(i + 1).drop_last() =~= pv.take(i as int));
        assert(pv.take(i + 1).last() == ps@[i as int]@);
        wrap_para(&ps[i], width, &mut out);
    }
    assert(pv.take(n as int) =~= pv);
    out
}

/// `a - b`, or 0 when `b` is larger.
pub open spec fn sat_sub(a: nat, b: nat) -> nat {
    if a >= b { (a - b) as nat } else { 0 }
}

/// One body row of a box.
pub open spec fn box_row(color: Seq<char>, line: Seq<char>, inner: nat) -> Seq<char> {
    color + seq!['║'] + RESET@ + seq![' '] + line + repeat(' ', sat_sub(inner, visible_length(line) + 1)) + color
        + seq!['║'] + RESET@ + seq!['\n']
}

pub open spec fn box_rows(color: Seq<char>, ls: Seq<Seq<char>>, inner: nat) -> Seq<char>
    decreases ls.len(),
{
    if ls.len() == 0 { Seq::empty() } else { box_rows(color, ls.drop_last(), inner) + box_row(color, ls.last(), inner) }
}

/// A box `width` columns wide: a top rule, the bold title row, a thin rule,
/// the body word-wrapped into rows, and a bottom rule.
pub open spec fn spec_boxed(title: Seq<char>, color: Seq<char>, body: Seq<char>, width: nat) -> Seq<char> {
    let inner = sat_sub(width, 2);
    box_top(color, inner) + box_title(color, title, inner) + box_rule(color, inner)
        + box_rows(color, spec_wrap(body, sat_sub(inner, 2)), inner) + box_bottom(color, inner)
}

pub open spec fn box_top(color: Seq<char>, inner: nat) -> Seq<char> {
    color + seq!['╔'] + repeat('═', inner) + seq!['╗'] + RESET@ + seq!['\n']
}

pub open spec fn box_title(color: Seq<char>, title: Seq<char>, inner: nat) -> Seq<char> {
    let titled = seq![' '] + title + seq![' '];
    color + seq!['║'] + RESET@ + (BOLD@ + titled + RESET@) + repeat(' ', sat_sub(inner, visible_length(titled)))
        + color + seq!['║'] + RESET@ + seq!['\n']
}

pub open spec fn box_rule(color: Seq<char>, inner: nat) -> Seq<char> {
    color + seq!['╟'] + repeat('─', inner) + seq!['╢'] + RESET@ + seq!['\n']
}

pub open spec fn box_bottom(color: Seq<char>, inner: nat) -> Seq<char> {
    color + seq!['╚'] + repeat('═', inner) + seq!['╝'] + RESET@
}

fn sat_sub_usize(a: usize, b: usize) -> (r: usize)
    ensures
        r == sat_sub(a as nat, b as nat),
{
    if a >= b { a - b } else { 0 }
}

/// Draw a boxed, wrapped block (used to render the injected note).
pub fn boxed(title: &str, title_color: &str, body: &str, width: usize) -> (r: String)
    ensures
        r@ == spec_boxed(title@, title_color@, body@, width as nat),
{
    let inner = sat_sub_usize(width, 2);
    let mut out = String::new();
    let ghost c = title_color@;
    out.append(title_color);
    out.push('╔');
    push_repeat(&mut out, '═', inner);
    out.push('╗');
    out.append(RESET);
    out.push('\n');
    assert(out@ =~= box_top(c, inner as nat));
    let ghost p1 = out@;
    let mut titled = String::new();
    titled.push(' ');
    titled.append(title);
    titled.push(' ');
    let pad = sat_sub_usize(inner, visible_len(titled.as_str()));
    out.append(title_color);
    out.push('║');
    out.append(RESET);
    out.append(bold(titled.as_str()).as_str());
    push_repeat(&mut out, ' ', pad);
    out.append(title_color);
    out.push('║');
    out.append(RESET);
    out.push('\n');
    assert(titled@ =~= seq![' '] + title@ + seq![' ']);
    assert(out@ =~= p1 + box_title(c, title@, inner as nat));
    let ghost p2 = out@;
    out.append(title_color);
    out.push('╟');
    push_repeat(&mut out, '─', inner);
    out.push('╢');
    out.append(RESET);
    out.push('\n');
    assert(out@ =~= p2 + box_rule(c, inner as nat));
    let ghost head = out@;
    let ls = wrap(body, sat_sub_usize(inner, 2));
    let ghost lv = ls@.map_values(|l: String| l@);
    let n = ls.len();
    assert(lv.take(0) =~= Seq::<Seq<char>>::empty());
    assert(head + box_rows(title_color@, lv.take(0), inner as nat) =~= head);
    for i in 0..n
        invariant
            n == ls@.len(),
            lv == ls@.map_values(|l: String| l@),
            out@ == head + box_rows(title_color@, lv.take(i as int), inner as nat),
    {
        assert(lv.take(i + 1).drop_last() =~= lv.take(i as int));
        assert(lv.take(i + 1).last() == ls@[i as int]@);
        let ghost before = out@;
        let line = &ls[i];
        let v = visible_len(line.as_str());
        let pad = if v < inner { inner - v - 1 } else { 0 };
        out.append(title_color);
        out.push('║');
        out.append(RESET);
        out.push(' ');
        out.append(line.as_str());
        push_repeat(&mut out, ' ', pad);
        out.append(title_color);
        out.push('║');
        out.append(RESET);
        out.push('\n');
        assert(out@ =~= before + box_row(title_color@, line@, inner as nat));
    }
    assert(lv.take(n as int) =~= lv);
    let ghost p4 = out@;
    out.append(title_color);
    out.push('╚');
    push_repeat(&mut out, '═', inner);
    out.push('╝');
    out.append(RESET);
    assert(out@ =~= p4 + box_bottom(c, inner as nat));
    assert(out@ =~= spec_boxed(title@, title_color@, body@, width as nat));
    out
}

} // verus!
