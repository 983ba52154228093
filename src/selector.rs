//! The picker protocol: each entry becomes a plain key and a decorated line
//! (the key with its tags coloured); the picker is fed the decorated lines
//! and what it prints back is trimmed, stripped of colour sequences and
//! looked up among the plain keys.

use vstd::prelude::*;
use crate::text::{chars_of, compare_text, is_white_space, push_char, split_words, trimmed, trim_text, words};
use crate::types::{CommandDef, copy_def, texts};

verus! {

/// Whether `c` may stand between `ESC [` and `m` in a colour sequence.
pub open spec fn is_sgr_param(c: char) -> bool {
    ('0' <= c && c <= '9') || c == ';'
}

/// The first index from `i` on that does not hold a parameter character.
pub open spec fn param_end(s: Seq<char>, i: int) -> int
    decreases s.len() - i,
{
    if i < 0 || i >= s.len() || !is_sgr_param(s[i]) {
        i
    } else {
        param_end(s, i + 1)
    }
}

/// The length of the colour sequence (`ESC [`, parameters, `m`) that `s`
/// starts with, or 0 when it starts with none.
pub open spec fn sgr_len(s: Seq<char>) -> int {
    if s.len() >= 2 && s[0] == '\u{1b}' && s[1] == '[' {
        let e = param_end(s, 2);
        if e < s.len() && s[e] == 'm' {
            e + 1
        } else {
            0
        }
    } else {
        0
    }
}

/// `s` with every colour sequence removed, scanning from the left.
pub open spec fn without_sgr(s: Seq<char>) -> Seq<char>
    decreases s.len(),
    via without_sgr_decreases
{
    if s.len() == 0 {
        s
    } else if sgr_len(s) > 0 {
        without_sgr(s.skip(sgr_len(s)))
    } else {
        seq![s[0]] + without_sgr(s.drop_first())
    }
}

#[via_fn]
proof fn without_sgr_decreases(s: Seq<char>) {
    if s.len() > 0 && sgr_len(s) > 0 {
        lemma_param_end(s, 2);
    }
}

proof fn lemma_param_end(s: Seq<char>, i: int)
    requires
        0 <= i <= s.len(),
    ensures
        i <= param_end(s, i) <= s.len(),
        forall|k: int| i <= k < param_end(s, i) ==> is_sgr_param(#[trigger] s[k]),
        param_end(s, i) < s.len() ==> !is_sgr_param(s[param_end(s, i)]),
    decreases s.len() - i,
{
    if i < s.len() && is_sgr_param(s[i]) {
        lemma_param_end(s, i + 1);
    }
}

/// A run of parameters that ends inside `a` ends at the same place in `a + b`.
proof fn lemma_param_end_concat(a: Seq<char>, b: Seq<char>, i: int)
    requires
        0 <= i <= a.len(),
        param_end(a, i) < a.len(),
    ensures
        param_end(a + b, i) == param_end(a, i),
    decreases a.len() - i,
{
    if is_sgr_param(a[i]) {
        lemma_param_end_concat(a, b, i + 1);
    }
}

/// A colour sequence at the start of `a` is one at the start of `a + b`.
proof fn lemma_sgr_len_concat(a: Seq<char>, b: Seq<char>)
    requires
        sgr_len(a) > 0,
    ensures
        sgr_len(a + b) == sgr_len(a),
        sgr_len(a) <= a.len(),
{
    lemma_param_end(a, 2);
    lemma_param_end_concat(a, b, 2);
}

/// No colour sequence can run from `a` into `b`: `a` ends in a character
/// that no sequence continues past, or `b` starts a sequence of its own.
pub open spec fn clean_cut(a: Seq<char>, b: Seq<char>) -> bool {
    a.len() == 0 || b.len() == 0 || (b[0] == '\u{1b}') || (a.last() != '\u{1b}' && a.last() != '['
        && !is_sgr_param(a.last()))
}

/// A colour sequence of `a + b` that starts at 0 lies within `a`.
proof fn lemma_sgr_within(a: Seq<char>, b: Seq<char>)
    requires
        clean_cut(a, b),
        a.len() > 0,
        sgr_len(a + b) > 0,
    ensures
        sgr_len(a) == sgr_len(a + b),
{
    let s = a + b;
    lemma_param_end(s, 2);
    let e = param_end(s, 2);
    if e >= a.len() {
        // the last character of `a` and the first of `b` both lie inside the sequence
        if b.len() > 0 {
            assert(s[a.len() as int] == b[0]);
            assert(s[a.len() - 1] == a.last());
            if a.len() >= 2 {
                assert(is_sgr_param(s[a.len() - 1]) || a.len() - 1 == 1);
            }
            if a.len() as int == e {
                assert(b[0] == 'm');
            } else {
                assert(is_sgr_param(b[0]));
            }
        }
        assert(false);
    }
    lemma_param_end_concat_back(a, b, 2);
}

/// The converse of `lemma_param_end_concat`.
proof fn lemma_param_end_concat_back(a: Seq<char>, b: Seq<char>, i: int)
    requires
        0 <= i <= a.len(),
        param_end(a + b, i) < a.len(),
    ensures
        param_end(a, i) == param_end(a + b, i),
    decreases a.len() - i,
{
    let s = a + b;
    lemma_param_end(s, i);
    if i < a.len() {
        assert(s[i] == a[i]);
        if is_sgr_param(s[i]) {
            lemma_param_end_concat_back(a, b, i + 1);
        }
    }
}

/// Removal works piecewise across a clean cut.
pub proof fn lemma_without_sgr_concat(a: Seq<char>, b: Seq<char>)
    requires
        clean_cut(a, b),
    ensures
        without_sgr(a + b) == without_sgr(a) + without_sgr(b),
    decreases a.len(),
{
    let s = a + b;
    if a.len() == 0 {
        assert(s =~= b);
        assert(without_sgr(a) =~= Seq::<char>::empty());
    } else if sgr_len(s) > 0 {
        lemma_sgr_within(a, b);
        lemma_sgr_len_concat(a, b);
        let n = sgr_len(a);
        assert(s.skip(n) =~= a.skip(n) + b);
        if a.skip(n).len() > 0 {
            assert(a.skip(n).last() == a.last());
        }
        lemma_without_sgr_concat(a.skip(n), b);
    } else {
        if sgr_len(a) > 0 {
            lemma_sgr_len_concat(a, b);
        }
        assert(s.drop_first() =~= a.drop_first() + b);
        if a.drop_first().len() > 0 {
            assert(a.drop_first().last() == a.last());
        }
        lemma_without_sgr_concat(a.drop_first(), b);
        assert(s[0] == a[0]);
        assert(seq![a[0]] + (without_sgr(a.drop_first()) + without_sgr(b)) =~= (seq![a[0]]
            + without_sgr(a.drop_first())) + without_sgr(b));
    }
}

/// Removal never lengthens a text.
pub proof fn lemma_without_sgr_len(s: Seq<char>)
    ensures
        without_sgr(s).len() <= s.len(),
    decreases s.len(),
{
    if s.len() > 0 {
        if sgr_len(s) > 0 {
            lemma_param_end(s, 2);
            lemma_without_sgr_len(s.skip(sgr_len(s)));
        } else {
            lemma_without_sgr_len(s.drop_first());
        }
    }
}

/// Relies on `regex::Regex::replace_all` with the pattern `\x1b\[[0-9;]*m`
/// and an empty replacement: every leftmost non-overlapping match, found
/// from the left, is removed.
#[verifier::external_body]
fn remove_sgr(s: &str) -> (r: String)
    ensures
        r@ == without_sgr(s@),
{
    regex::Regex::new(r"\x1b\[[0-9;]*m").unwrap().replace_all(s, "").to_string()
}

/// Removes every colour sequence (`ESC [`, digits and semicolons, `m`).
pub fn strip_ansi_escapes(s: &str) -> (r: String)
    ensures
        r@ == without_sgr(s@),
{
    remove_sgr(s)
}

/// The sequence that colours the tags of a decorated line.
pub open spec fn color_on() -> Seq<char> {
    "\x1b[33m"@
}

/// The sequence that ends the colouring.
pub open spec fn color_off() -> Seq<char> {
    "\x1b[0m"@
}

/// The tags that are shown: those not in `excluded`, in order.
pub open spec fn shown_tags(tags: Seq<Seq<char>>, excluded: Seq<Seq<char>>) -> Seq<Seq<char>> {
    tags.filter(|t: Seq<char>| !excluded.contains(t))
}

/// `k` copies of `#`.
pub open spec fn hashes(k: nat) -> Seq<char> {
    Seq::new(k, |i: int| '#')
}

/// Whether `t` occurs in `s`.
pub open spec fn occurs_in(t: Seq<char>, s: Seq<char>) -> bool {
    exists|p: int| 0 <= p && p + t.len() <= s.len() && #[trigger] s.subrange(p, p + t.len()) == t
}

/// The length of the run of `#` that `s` ends with.
pub open spec fn trailing_hashes(s: Seq<char>) -> nat
    decreases s.len(),
{
    if s.len() > 0 && s.last() == '#' {
        trailing_hashes(s.drop_last()) + 1
    } else {
        0
    }
}

/// The length of the longest run of `#` in `s`.
pub open spec fn longest_hash_run(s: Seq<char>) -> nat
    decreases s.len(),
{
    if s.len() == 0 {
        0
    } else {
        let a = longest_hash_run(s.drop_last());
        let b = trailing_hashes(s);
        if a >= b {
            a
        } else {
            b
        }
    }
}

/// The longest run of `#` in the descriptions of `commands`.
pub open spec fn widest_hash_run(commands: Seq<CommandDef>) -> nat
    decreases commands.len(),
{
    if commands.len() == 0 {
        0
    } else {
        let a = widest_hash_run(commands.drop_last());
        let b = longest_hash_run(commands.last().description@);
        if a >= b {
            a
        } else {
            b
        }
    }
}

/// The marker put before each shown tag: one `#` more than the longest run
/// of `#` in any description, so that it occurs in none of them.
pub open spec fn tag_marker(commands: Seq<CommandDef>) -> Seq<char> {
    hashes(widest_hash_run(commands) + 1)
}

/// `<m>tag1 <m>tag2 ...`: each tag behind the marker `m`, separated by one
/// space.
pub open spec fn tag_text(tags: Seq<Seq<char>>, marker: Seq<char>) -> Seq<char>
    decreases tags.len(),
{
    if tags.len() == 0 {
        Seq::empty()
    } else if tags.len() == 1 {
        marker + tags[0]
    } else {
        tag_text(tags.drop_last(), marker) + seq![' '] + marker + tags.last()
    }
}

/// The plain key of an entry: its description, then a space and the shown
/// tags when there are any.
pub open spec fn plain_key(
    description: Seq<char>,
    tags: Seq<Seq<char>>,
    excluded: Seq<Seq<char>>,
    marker: Seq<char>,
) -> Seq<char> {
    let t = tag_text(shown_tags(tags, excluded), marker);
    if t.len() == 0 {
        description
    } else {
        description + seq![' '] + t
    }
}

/// The decorated line of an entry: the plain key with the tag part coloured.
pub open spec fn decorated_line(
    description: Seq<char>,
    tags: Seq<Seq<char>>,
    excluded: Seq<Seq<char>>,
    marker: Seq<char>,
) -> Seq<char> {
    let t = tag_text(shown_tags(tags, excluded), marker);
    if t.len() == 0 {
        description
    } else {
        description + seq![' '] + color_on() + t + color_off()
    }
}

proof fn lemma_tag_text_starts(tags: Seq<Seq<char>>, marker: Seq<char>)
    requires
        tags.len() > 0,
    ensures
        tag_text(tags, marker).len() >= marker.len(),
        tag_text(tags, marker).subrange(0, marker.len() as int) == marker,
    decreases tags.len(),
{
    if tags.len() > 1 {
        lemma_tag_text_starts(tags.drop_last(), marker);
        let a = tag_text(tags.drop_last(), marker);
        assert((a + seq![' '] + marker + tags.last()).subrange(0, marker.len() as int) =~= a.subrange(
            0,
            marker.len() as int,
        ));
    } else {
        assert((marker + tags[0]).subrange(0, marker.len() as int) =~= marker);
    }
}

/// Entries with different descriptions get different plain keys, whatever
/// their tags, when the marker is made of `#` and occurs in neither
/// description.
pub proof fn lemma_plain_keys_distinct(
    d1: Seq<char>,
    t1: Seq<Seq<char>>,
    d2: Seq<char>,
    t2: Seq<Seq<char>>,
    excluded: Seq<Seq<char>>,
    marker: Seq<char>,
)
    requires
        d1 != d2,
        marker.len() > 0,
        forall|i: int| 0 <= i < marker.len() ==> marker[i] == '#',
        !occurs_in(marker, d1),
        !occurs_in(marker, d2),
    ensures
        plain_key(d1, t1, excluded, marker) != plain_key(d2, t2, excluded, marker),
{
    let s1 = shown_tags(t1, excluded);
    let s2 = shown_tags(t2, excluded);
    let x1 = tag_text(s1, marker);
    let x2 = tag_text(s2, marker);
    let k1 = plain_key(d1, t1, excluded, marker);
    let k2 = plain_key(d2, t2, excluded, marker);
    let m = marker.len() as int;
    if x1.len() > 0 {
        assert(s1.len() > 0);
        lemma_tag_text_starts(s1, marker);
    }
    if x2.len() > 0 {
        assert(s2.len() > 0);
        lemma_tag_text_starts(s2, marker);
    }
    if k1 == k2 {
        if x1.len() == 0 && x2.len() == 0 {
            assert(false);
        } else if x2.len() == 0 {
            // d2 == d1 + " " + x1 holds the marker
            let p: int = d1.len() as int + 1;
            assert(d2.subrange(p, p + m) =~= x1.subrange(0, m)) by {
                assert forall|q: int| 0 <= q < m implies d2.subrange(p, p + m)[q] == x1.subrange(0, m)[q] by {
                    assert(k1[p + q] == x1[q]);
                }
            }
            assert(occurs_in(marker, d2));
        } else if x1.len() == 0 {
            let p: int = d2.len() as int + 1;
            assert(d1.subrange(p, p + m) =~= x2.subrange(0, m)) by {
                assert forall|q: int| 0 <= q < m implies d1.subrange(p, p + m)[q] == x2.subrange(0, m)[q] by {
                    assert(k2[p + q] == x2[q]);
                }
            }
            assert(occurs_in(marker, d1));
        } else {
            if d1.len() <= d2.len() {
                lemma_keys_apart(d1, x1, d2, x2, marker);
            } else {
                lemma_keys_apart(d2, x2, d1, x1, marker);
            }
        }
    }
}

/// Two tagged keys `a + " " + x` and `b + " " + y` with `a` shorter than `b`
/// are equal only if the marker occurs in `b`.
proof fn lemma_keys_apart(a: Seq<char>, x: Seq<char>, b: Seq<char>, y: Seq<char>, marker: Seq<char>)
    requires
        marker.len() > 0,
        forall|i: int| 0 <= i < marker.len() ==> marker[i] == '#',
        x.len() >= marker.len(),
        x.subrange(0, marker.len() as int) == marker,
        y.len() >= marker.len(),
        y.subrange(0, marker.len() as int) == marker,
        a.len() <= b.len(),
        a != b,
        a + seq![' '] + x == b + seq![' '] + y,
    ensures
        occurs_in(marker, b),
{
    let k = a + seq![' '] + x;
    let m = marker.len() as int;
    if a.len() == b.len() {
        assert(a =~= k.subrange(0, a.len() as int));
        assert(b =~= (b + seq![' '] + y).subrange(0, b.len() as int));
        assert(false);
    }
    let p: int = a.len() as int + 1;
    if p + m <= b.len() {
        assert(b.subrange(p, p + m) =~= marker) by {
            assert forall|q: int| 0 <= q < m implies b.subrange(p, p + m)[q] == marker[q] by {
                assert(k[p + q] == x[q]);
                assert(x[q] == x.subrange(0, m)[q]);
                assert((b + seq![' '] + y)[p + q] == b[p + q]);
            }
        }
    } else {
        // position |b| is a space in one key and a marker character in the other
        let q = b.len() - p;
        assert(0 <= q < m);
        assert((b + seq![' '] + y)[b.len() as int] == ' ');
        assert(k[p + q] == x[q]);
        assert(x[q] == x.subrange(0, m)[q]);
        assert(marker[q] == '#');
        assert(false);
    }
}

/// Stripping the colour from a decorated line gives back the plain key, for
/// every entry and every set of excluded tags, as long as the plain key holds
/// no colour sequence of its own.
pub proof fn lemma_strip_decorated(
    description: Seq<char>,
    tags: Seq<Seq<char>>,
    excluded: Seq<Seq<char>>,
    marker: Seq<char>,
)
    requires
        without_sgr(plain_key(description, tags, excluded, marker)) == plain_key(
            description,
            tags,
            excluded,
            marker,
        ),
    ensures
        without_sgr(decorated_line(description, tags, excluded, marker)) == plain_key(
            description,
            tags,
            excluded,
            marker,
        ),
{
    let t = tag_text(shown_tags(tags, excluded), marker);
    if t.len() > 0 {
        reveal_strlit("\x1b[33m");
        reveal_strlit("\x1b[0m");
        let head = description + seq![' '];
        let on = color_on();
        let off = color_off();
        // the plain key splits into its two parts
        lemma_without_sgr_concat(head, t);
        assert(plain_key(description, tags, excluded, marker) =~= head + t);
        lemma_without_sgr_len(head);
        lemma_without_sgr_len(t);
        assert(without_sgr(head) =~= (head + t).take(head.len() as int));
        assert(without_sgr(t) =~= (head + t).skip(head.len() as int));
        // the decorated line
        let rest = t + off;
        assert(decorated_line(description, tags, excluded, marker) =~= head + (on + rest));
        lemma_without_sgr_concat(head, on + rest);
        assert(sgr_len(on) == 5) by {
            assert(param_end(on, 4) == 4);
            assert(param_end(on, 3) == 4);
            assert(param_end(on, 2) == 4);
        }
        lemma_sgr_len_concat(on, rest);
        assert((on + rest).skip(5) =~= rest);
        lemma_without_sgr_concat(t, off);
        assert(sgr_len(off) == 4) by {
            assert(param_end(off, 3) == 3);
            assert(param_end(off, 2) == 3);
        }
        assert(off.skip(4) =~= Seq::<char>::empty());
        assert(off.len() == 4);
        assert(without_sgr(off) == without_sgr(off.skip(4)));
        assert(without_sgr(off.skip(4)) == off.skip(4));
        assert(without_sgr(off) =~= Seq::<char>::empty());
        assert(without_sgr(rest) =~= t);
    }
}

/// Whether `wanted` is among `list`.
fn contains_text(list: &Vec<String>, wanted: &String) -> (r: bool)
    ensures
        r == texts(list@).contains(wanted@),
{
    let mut i: usize = 0;
    while i < list.len()
        invariant
            i <= list.len(),
            forall|k: int| 0 <= k < i ==> list@[k]@ != wanted@,
        decreases list.len() - i,
    {
        if list[i] == *wanted {
            assert(texts(list@)[i as int] == wanted@);
            return true;
        }
        i = i + 1;
    }
    proof {
        if texts(list@).contains(wanted@) {
            let k = choose|k: int| 0 <= k < texts(list@).len() && texts(list@)[k] == wanted@;
            assert(list@[k]@ == wanted@);
        }
    }
    false
}

/// `<m>tag1 <m>tag2 ...`, with `m` the marker, for the tags of `tags` that
/// are not in `excluded`.
pub fn tag_label(tags: &Vec<String>, excluded: &Vec<String>, marker: &str) -> (r: String)
    ensures
        r@ == tag_text(shown_tags(texts(tags@), texts(excluded@)), marker@),
{
    let ghost ex = texts(excluded@);
    let ghost pred = |t: Seq<char>| !ex.contains(t);
    let mut r = String::new();
    let mut shown: usize = 0;
    let mut i: usize = 0;
    while i < tags.len()
        invariant
            i <= tags.len(),
            ex == texts(excluded@),
            pred == (|t: Seq<char>| !ex.contains(t)),
            shown == texts(tags@).take(i as int).filter(pred).len(),
            shown <= i,
            r@ == tag_text(texts(tags@).take(i as int).filter(pred), marker@),
        decreases tags.len() - i,
    {
        let ghost before = texts(tags@).take(i as int);
        assert(texts(tags@).take(i + 1) =~= before.push(tags@[i as int]@));
        proof {
            before.lemma_filter_push(tags@[i as int]@, pred);
        }
        if !contains_text(excluded, &tags[i]) {
            let ghost f = before.filter(pred);
            let ghost f2 = f.push(tags@[i as int]@);
            assert(f2.drop_last() =~= f);
            if shown > 0 {
                push_char(&mut r, ' ');
            }
            r.append(marker);
            r.append(tags[i].as_str());
            if shown == 0 {
                assert(r@ =~= marker@ + f2[0]);
            } else {
                assert(r@ =~= tag_text(f, marker@) + seq![' '] + marker@ + f2.last());
            }
            shown = shown + 1;
        }
        i = i + 1;
    }
    assert(texts(tags@).take(i as int) =~= texts(tags@));
    r
}

/// The plain key of `d` with the tag marker `marker`, when the tags of
/// `excluded` are not shown.
pub fn plain_key_of(d: &CommandDef, excluded: &Vec<String>, marker: &str) -> (r: String)
    ensures
        r@ == plain_key(d.description@, texts(d.tags@), texts(excluded@), marker@),
{
    let t = tag_label(&d.tags, excluded, marker);
    let mut r = d.description.clone();
    if chars_of(t.as_str()).len() > 0 {
        push_char(&mut r, ' ');
        r.append(t.as_str());
    }
    r
}

/// The decorated line of `d` with the tag marker `marker`, when the tags of
/// `excluded` are not shown.
pub fn decorated_line_of(d: &CommandDef, excluded: &Vec<String>, marker: &str) -> (r: String)
    ensures
        r@ == decorated_line(d.description@, texts(d.tags@), texts(excluded@), marker@),
{
    let t = tag_label(&d.tags, excluded, marker);
    let mut r = d.description.clone();
    if chars_of(t.as_str()).len() > 0 {
        push_char(&mut r, ' ');
        r.append("\x1b[33m");
        r.append(t.as_str());
        r.append("\x1b[0m");
    }
    r
}

/// How a known picker program takes an initial query and a header.
#[derive(Debug, PartialEq, Eq, Structural)]
pub enum PickerKind {
    /// `fzf`: `--query` and `--header`.
    Fzf,
    /// `gum filter`: `--filter`.
    GumFilter,
    /// Any other program: only its own arguments.
    Plain,
}

/// The kind of picker that `program` with the arguments `base` is.
pub open spec fn picker_kind(program: Seq<char>, base: Seq<Seq<char>>) -> PickerKind {
    if program == "fzf"@ {
        PickerKind::Fzf
    } else if program == "gum"@ && base.len() > 0 && base[0] == "filter"@ {
        PickerKind::GumFilter
    } else {
        PickerKind::Plain
    }
}

/// The arguments that hand a picker of `kind` the initial query.
pub open spec fn query_flags(kind: PickerKind, query: Option<Seq<char>>) -> Seq<Seq<char>> {
    match query {
        None => Seq::empty(),
        Some(q) => match kind {
            PickerKind::Fzf => seq!["--query"@, q],
            PickerKind::GumFilter => seq!["--filter"@, q],
            PickerKind::Plain => Seq::empty(),
        },
    }
}

/// The arguments that show a picker of `kind` the tags being filtered on.
pub open spec fn header_flags(kind: PickerKind, excluded: Seq<Seq<char>>) -> Seq<Seq<char>> {
    if kind == PickerKind::Fzf && excluded.len() > 0 {
        seq!["--header"@, tag_text(excluded, "#"@), "--header-first"@]
    } else {
        Seq::empty()
    }
}

/// The arguments of the picker that `filter` names: its own words after the
/// program, then the query and header arguments that the program takes.
pub open spec fn picker_args(filter: Seq<char>, query: Option<Seq<char>>, excluded: Seq<Seq<char>>) -> Seq<Seq<char>> {
    let w = words(filter);
    let kind = picker_kind(w[0], w.skip(1));
    w.skip(1) + query_flags(kind, query) + header_flags(kind, excluded)
}

/// The view of an optional text.
pub open spec fn opt_text(q: Option<&str>) -> Option<Seq<char>> {
    match q {
        None => None,
        Some(t) => Some(t@),
    }
}

impl PickerKind {
    /// The kind of picker that `program` with the arguments `base` is.
    pub fn of(program: &String, base: &Vec<String>) -> (r: PickerKind)
        ensures
            r == picker_kind(program@, texts(base@)),
    {
        if compare_text(program.as_str(), "fzf") == 0 {
            PickerKind::Fzf
        } else if compare_text(program.as_str(), "gum") == 0 && base.len() > 0 && compare_text(
            base[0].as_str(),
            "filter",
        ) == 0 {
            PickerKind::GumFilter
        } else {
            PickerKind::Plain
        }
    }

    /// Appends the arguments that hand over the initial query.
    fn push_query_flags(&self, args: &mut Vec<String>, query: Option<&str>)
        ensures
            texts(final(args)@) == texts(old(args)@) + query_flags(*self, opt_text(query)),
    {
        let ghost a0 = texts(args@);
        match query {
            None => {},
            Some(q) => match self {
                PickerKind::Fzf => {
                    args.push("--query".to_string());
                    args.push(q.to_string());
                },
                PickerKind::GumFilter => {
                    args.push("--filter".to_string());
                    args.push(q.to_string());
                },
                PickerKind::Plain => {},
            },
        }
        assert(texts(args@) =~= a0 + query_flags(*self, opt_text(query)));
    }

    /// Appends the arguments that show the tags being filtered on.
    fn push_header_flags(&self, args: &mut Vec<String>, excluded: &Vec<String>)
        ensures
            texts(final(args)@) == texts(old(args)@) + header_flags(*self, texts(excluded@)),
    {
        let ghost a0 = texts(args@);
        if *self == PickerKind::Fzf && excluded.len() > 0 {
            args.push("--header".to_string());
            args.push(tag_label(excluded, &Vec::new(), "#"));
            args.push("--header-first".to_string());
            proof {
                lemma_nothing_excluded(texts(excluded@));
            }
        }
        assert(texts(args@) =~= a0 + header_flags(*self, texts(excluded@)));
    }
}

/// With nothing excluded, every tag is shown.
proof fn lemma_nothing_excluded(tags: Seq<Seq<char>>)
    ensures
        shown_tags(tags, texts(Seq::<String>::empty())) == tags,
    decreases tags.len(),
{
    let ex = texts(Seq::<String>::empty());
    let pred = |t: Seq<char>| !ex.contains(t);
    if tags.len() > 0 {
        lemma_nothing_excluded(tags.drop_last());
        tags.drop_last().lemma_filter_push(tags.last(), pred);
        assert(tags.drop_last().push(tags.last()) =~= tags);
    } else {
        assert(tags.filter(pred) =~= tags) by {
            reveal(Seq::filter);
        }
    }
}

/// What to run as the picker, what to feed it, and how to read its answer.
#[derive(Debug)]
pub struct PickerPlan {
    /// The program to start.
    pub program: String,
    /// Its arguments.
    pub args: Vec<String>,
    /// The lines to write to its standard input, one per entry.
    pub lines: Vec<String>,
    /// The plain key of each entry, in the same order.
    pub keys: Vec<String>,
}

/// Why no entry could be chosen.
#[derive(Debug, PartialEq, Eq)]
pub enum SelectError {
    /// There is nothing to choose from; names where snippets were looked for.
    NoSnippets { looked_in: String },
    /// The filter command names no program.
    NoFilterProgram { filter: String },
    /// The picker answered with a line that is no entry's key.
    NotFound { key: String },
    /// The picker answered with a line that is the key of several entries.
    Ambiguous { key: String },
}

impl SelectError {
    /// A message for the user.
    pub fn message(&self) -> (r: String)
        ensures
            match self {
                SelectError::NoSnippets { looked_in } => r@ == "No command snippets defined. Looked in: "@
                    + looked_in@,
                SelectError::NoFilterProgram { filter } => r@ == "Failed to spawn filter command '"@
                    + filter@ + "'"@,
                SelectError::NotFound { key } => r@ == "Selected command '"@ + key@
                    + "' not found"@,
                SelectError::Ambiguous { key } => r@ == "Selected command '"@ + key@
                    + "' matches several snippets"@,
            },
    {
        let mut m = String::new();
        match self {
            SelectError::NoSnippets { looked_in } => {
                m.append("No command snippets defined. Looked in: ");
                m.append(looked_in.as_str());
            },
            SelectError::NoFilterProgram { filter } => {
                m.append("Failed to spawn filter command '");
                m.append(filter.as_str());
                m.append("'");
            },
            SelectError::NotFound { key } => {
                m.append("Selected command '");
                m.append(key.as_str());
                m.append("' not found");
            },
            SelectError::Ambiguous { key } => {
                m.append("Selected command '");
                m.append(key.as_str());
                m.append("' matches several snippets");
            },
        }
        m
    }
}

/// The decorated lines of `commands`.
pub open spec fn decorated_lines(commands: Seq<CommandDef>, excluded: Seq<Seq<char>>, marker: Seq<char>) -> Seq<Seq<char>> {
    commands.map_values(|d: CommandDef| decorated_line(d.description@, texts(d.tags@), excluded, marker))
}

/// The plain keys of `commands`.
pub open spec fn plain_keys(commands: Seq<CommandDef>, excluded: Seq<Seq<char>>, marker: Seq<char>) -> Seq<Seq<char>> {
    commands.map_values(|d: CommandDef| plain_key(d.description@, texts(d.tags@), excluded, marker))
}

/// The key that the picker's answer `output` stands for: trimmed, then
/// stripped of colour.
pub open spec fn answer_key(output: Seq<char>) -> Seq<char> {
    without_sgr(trimmed(output))
}

/// A key that survives the picker's round trip: it holds no colour
/// sequence and neither starts nor ends with white space.
pub open spec fn clean_key(k: Seq<char>) -> bool {
    without_sgr(k) == k && (k.len() == 0 || (!is_white_space(k[0]) && !is_white_space(k.last())))
}

/// No two of `commands` share a description.
pub open spec fn distinct_descriptions(commands: Seq<CommandDef>) -> bool {
    forall|a: int, b: int|
        0 <= a < b < commands.len() ==> (#[trigger] commands[a]).description@ != (#[trigger] commands[b]).description@
}

/// `p` is the picker plan for `commands` with the filter command `filter`,
/// the initial query `query` and the tags `excluded` not shown: the program
/// and arguments; the decorated line and the plain key of each entry, with
/// the marker of `commands`; the picker's answer for a line stands for that
/// line's plain key wherever the plain key is clean; and the keys are
/// distinct where the descriptions are.
pub open spec fn plan_for(
    p: PickerPlan,
    commands: Seq<CommandDef>,
    filter: Seq<char>,
    query: Option<Seq<char>>,
    excluded: Seq<Seq<char>>,
) -> bool {
    let marker = tag_marker(commands);
    let plain = plain_keys(commands, excluded, marker);
    &&& p.program@ == words(filter)[0]
    &&& texts(p.args@) == picker_args(filter, query, excluded)
    &&& texts(p.lines@) == decorated_lines(commands, excluded, marker)
    &&& texts(p.keys@) == plain
    &&& forall|j: int|
        0 <= j < commands.len() && clean_key(#[trigger] plain[j]) ==> answer_key(texts(p.lines@)[j])
            == plain[j]
    &&& distinct_descriptions(commands) ==> texts(p.keys@).no_duplicates()
}

proof fn lemma_trailing_hashes(s: Seq<char>, q: int, n: int)
    requires
        0 <= n <= q <= s.len(),
        forall|i: int| q - n <= i < q ==> s[i] == '#',
    ensures
        trailing_hashes(s.take(q)) >= n,
    decreases n,
{
    if n > 0 {
        assert(s.take(q).drop_last() =~= s.take(q - 1));
        assert(s.take(q).last() == s[q - 1]);
        lemma_trailing_hashes(s, q - 1, n - 1);
    }
}

proof fn lemma_longest_prefix(s: Seq<char>, q: int)
    requires
        0 <= q <= s.len(),
    ensures
        longest_hash_run(s) >= longest_hash_run(s.take(q)),
        longest_hash_run(s.take(q)) >= trailing_hashes(s.take(q)),
    decreases s.len() - q,
{
    if q < s.len() {
        lemma_longest_prefix(s, q + 1);
        assert(s.take(q + 1).drop_last() =~= s.take(q));
    } else {
        assert(s.take(q) =~= s);
    }
}

proof fn lemma_widest(commands: Seq<CommandDef>, j: int)
    requires
        0 <= j < commands.len(),
    ensures
        widest_hash_run(commands) >= longest_hash_run(commands[j].description@),
    decreases commands.len(),
{
    if j < commands.len() - 1 {
        lemma_widest(commands.drop_last(), j);
    }
}

/// The marker of `commands` is made of `#` and occurs in no description.
pub proof fn lemma_marker_free(commands: Seq<CommandDef>, j: int)
    requires
        0 <= j < commands.len(),
    ensures
        tag_marker(commands).len() > 0,
        forall|i: int| 0 <= i < tag_marker(commands).len() ==> #[trigger] tag_marker(commands)[i] == '#',
        !occurs_in(tag_marker(commands), commands[j].description@),
{
    let m = tag_marker(commands);
    let d = commands[j].description@;
    let k = m.len() as int;
    lemma_widest(commands, j);
    if occurs_in(m, d) {
        let p = choose|p: int| 0 <= p && p + k <= d.len() && #[trigger] d.subrange(p, p + k) == m;
        assert forall|i: int| p + k - k <= i < p + k implies d[i] == '#' by {
            assert(d.subrange(p, p + k)[i - p] == m[i - p]);
        }
        lemma_trailing_hashes(d, p + k, k);
        lemma_longest_prefix(d, p + k);
        assert(false);
    }
}

/// White space at the ends aside, `s` is left alone by trimming.
proof fn lemma_trimmed_unchanged(s: Seq<char>)
    requires
        s.len() == 0 || (!is_white_space(s[0]) && !is_white_space(s.last())),
    ensures
        trimmed(s) == s,
{
}

/// Trimming ignores the newline after a line.
pub proof fn lemma_trim_newline(l: Seq<char>)
    ensures
        trimmed(l + seq!['\n']) == trimmed(l),
    decreases l.len(),
{
    let s = l + seq!['\n'];
    if l.len() == 0 {
        assert(s.drop_first() =~= l);
    } else if is_white_space(l[0]) {
        assert(s.drop_first() =~= l.drop_first() + seq!['\n']);
        lemma_trim_newline(l.drop_first());
    } else {
        assert(s.drop_last() =~= l);
    }
}

/// The picker's echo of a line, newline and all, stands for the same key as
/// the line itself.
pub proof fn lemma_echo_key(line: Seq<char>)
    ensures
        answer_key(line + seq!['\n']) == answer_key(line),
{
    lemma_trim_newline(line);
}

/// Where the plain key is clean, the picker's answer for the decorated line
/// stands for the plain key.
pub proof fn lemma_answer_key_clean(
    description: Seq<char>,
    tags: Seq<Seq<char>>,
    excluded: Seq<Seq<char>>,
    marker: Seq<char>,
)
    requires
        clean_key(plain_key(description, tags, excluded, marker)),
    ensures
        answer_key(decorated_line(description, tags, excluded, marker)) == plain_key(
            description,
            tags,
            excluded,
            marker,
        ),
{
    let t = tag_text(shown_tags(tags, excluded), marker);
    let line = decorated_line(description, tags, excluded, marker);
    let key = plain_key(description, tags, excluded, marker);
    if t.len() > 0 {
        reveal_strlit("\x1b[0m");
        assert(key[0] == line[0]) by {
            if description.len() == 0 {
                assert(key[0] == ' ');
            }
        }
        assert(line.last() == 'm');
    }
    lemma_trimmed_unchanged(line);
    lemma_strip_decorated(description, tags, excluded, marker);
}

/// Plans the picker run for `commands`: the program and arguments that
/// `filter_cmd` gives, with the initial query and, for the tags in
/// `exclude_tags`, a header where the program takes them; the decorated line
/// and key of each entry, where the tags of `exclude_tags` are not shown.
pub fn choose_command(
    commands: &Vec<CommandDef>,
    config_dir: &str,
    filter_cmd: &str,
    initial_query: Option<&str>,
    exclude_tags: &Vec<String>,
) -> (r: Result<PickerPlan, SelectError>)
    ensures
        commands.len() == 0 <==> r matches Err(SelectError::NoSnippets { looked_in }),
        r matches Err(SelectError::NoSnippets { looked_in }) ==> looked_in@ == config_dir@,
        r matches Err(SelectError::NoFilterProgram { filter }) <==> commands.len() > 0 && words(
            filter_cmd@,
        ).len() == 0,
        r matches Err(SelectError::NoFilterProgram { filter }) ==> filter@ == filter_cmd@,
        !(r matches Err(SelectError::NotFound { .. })),
        !(r matches Err(SelectError::Ambiguous { .. })),
        r matches Ok(p) ==> plan_for(p, commands@, filter_cmd@, opt_text(initial_query), texts(exclude_tags@)),
{
    if commands.len() == 0 {
        return Err(SelectError::NoSnippets { looked_in: config_dir.to_string() });
    }
    let ghost ex = texts(exclude_tags@);
    let marker = tag_marker_for(commands);
    let ghost mk = marker@;
    let ghost plain = plain_keys(commands@, ex, mk);
    let mut lines: Vec<String> = Vec::new();
    let mut keys: Vec<String> = Vec::new();
    let mut i: usize = 0;
    while i < commands.len()
        invariant
            i <= commands.len(),
            ex == texts(exclude_tags@),
            mk == marker@,
            texts(lines@) == decorated_lines(commands@.take(i as int), ex, mk),
            texts(keys@) == plain_keys(commands@.take(i as int), ex, mk),
        decreases commands.len() - i,
    {
        let ghost l0 = texts(lines@);
        let ghost k0 = texts(keys@);
        let line = decorated_line_of(&commands[i], exclude_tags, marker.as_str());
        let key = plain_key_of(&commands[i], exclude_tags, marker.as_str());
        let ghost lv = line@;
        let ghost kv = key@;
        lines.push(line);
        keys.push(key);
        let ghost c = commands@[i as int];
        assert(commands@.take(i + 1) =~= commands@.take(i as int).push(c));
        assert(texts(lines@) =~= l0.push(lv));
        assert(texts(keys@) =~= k0.push(kv));
        assert(decorated_lines(commands@.take(i + 1), ex, mk) =~= decorated_lines(commands@.take(i as int), ex, mk).push(decorated_line(c.description@, texts(c.tags@), ex, mk)));
        assert(plain_keys(commands@.take(i + 1), ex, mk) =~= plain_keys(commands@.take(i as int), ex, mk).push(plain_key(c.description@, texts(c.tags@), ex, mk)));
        i = i + 1;
    }
    assert(commands@.take(i as int) =~= commands@);
    proof {
        let ks = texts(keys@);
        let ls = texts(lines@);
        assert forall|j: int| 0 <= j < commands.len() && clean_key(#[trigger] plain[j]) implies answer_key(ls[j]) == plain[j] by {
            let c = commands@[j];
            lemma_answer_key_clean(c.description@, texts(c.tags@), ex, mk);
        }
        if distinct_descriptions(commands@) {
            assert forall|a: int, b: int| 0 <= a < ks.len() && 0 <= b < ks.len() && a != b implies ks[a] != ks[b] by {
                let ca = commands@[a];
                let cb = commands@[b];
                lemma_marker_free(commands@, a);
                lemma_marker_free(commands@, b);
                if a < b {
                    assert(ca.description@ != cb.description@);
                } else {
                    assert(cb.description@ != ca.description@);
                }
                lemma_plain_keys_distinct(ca.description@, texts(ca.tags@), cb.description@, texts(cb.tags@), ex, mk);
            }
        }
    }
    let w = split_words(filter_cmd);
    if w.len() == 0 {
        assert(words(filter_cmd@).len() == 0);
        return Err(SelectError::NoFilterProgram { filter: filter_cmd.to_string() });
    }
    let mut args: Vec<String> = Vec::new();
    let mut k: usize = 1;
    while k < w.len()
        invariant
            1 <= k <= w.len(),
            texts(args@) == texts(w@).subrange(1, k as int),
        decreases w.len() - k,
    {
        let ghost a0 = texts(args@);
        args.push(w[k].clone());
        assert(texts(args@) =~= a0.push(w@[k as int]@));
        assert(texts(w@).subrange(1, k + 1) =~= texts(w@).subrange(1, k as int).push(w@[k as int]@));
        k = k + 1;
    }
    assert(texts(w@) == words(filter_cmd@));
    assert(texts(args@) =~= words(filter_cmd@).skip(1));
    let kind = PickerKind::of(&w[0], &args);
    kind.push_query_flags(&mut args, initial_query);
    kind.push_header_flags(&mut args, exclude_tags);
    let program = w[0].clone();
    assert(program@ == words(filter_cmd@)[0]);
    Ok(PickerPlan { program, args, lines, keys })
}

/// The length of the longest run of `#` in `s`.
fn hash_run_of(s: &str) -> (r: usize)
    ensures
        r == longest_hash_run(s@),
{
    let cs = chars_of(s);
    let mut cur: usize = 0;
    let mut best: usize = 0;
    let mut i: usize = 0;
    while i < cs.len()
        invariant
            cs@ == s@,
            i <= cs.len(),
            cur <= i,
            best <= i,
            cur == trailing_hashes(cs@.take(i as int)),
            best == longest_hash_run(cs@.take(i as int)),
        decreases cs.len() - i,
    {
        assert(cs@.take(i + 1).drop_last() =~= cs@.take(i as int));
        assert(cs@.take(i + 1).last() == cs@[i as int]);
        if cs[i] == '#' {
            cur = cur + 1;
        } else {
            cur = 0;
        }
        if cur > best {
            best = cur;
        }
        i = i + 1;
    }
    assert(cs@.take(i as int) =~= s@);
    best
}

/// The tag marker of `commands`.
pub fn tag_marker_for(commands: &Vec<CommandDef>) -> (r: String)
    ensures
        r@ == tag_marker(commands@),
{
    let mut widest: usize = 0;
    let mut i: usize = 0;
    while i < commands.len()
        invariant
            i <= commands.len(),
            widest == widest_hash_run(commands@.take(i as int)),
        decreases commands.len() - i,
    {
        assert(commands@.take(i + 1).drop_last() =~= commands@.take(i as int));
        assert(commands@.take(i + 1).last() == commands@[i as int]);
        let run = hash_run_of(commands[i].description.as_str());
        if run > widest {
            widest = run;
        }
        i = i + 1;
    }
    assert(commands@.take(i as int) =~= commands@);
    let mut r = String::new();
    push_char(&mut r, '#');
    let mut j: usize = 0;
    while j < widest
        invariant
            j <= widest,
            r@ == hashes((j + 1) as nat),
        decreases widest - j,
    {
        push_char(&mut r, '#');
        assert(r@ =~= hashes((j + 2) as nat));
        j = j + 1;
    }
    assert(r@ =~= hashes((widest + 1) as nat));
    r
}

impl PickerPlan {
    /// Reads the picker's answer. `Ok(None)` when the picker did not succeed
    /// (the user cancelled); else the one entry whose key the answer stands
    /// for; an error when no entry has that key, or more than one has.
    ///
    /// With the plan of `choose_command`, an answer that echoes the line of
    /// entry `i` stands for the key of `i` wherever that key is clean
    /// (`lemma_echo_key`, `plan_for`), so it resolves to `i` when the
    /// descriptions are distinct.
    pub fn resolve(&self, succeeded: bool, output: &str) -> (r: Result<Option<usize>, SelectError>)
        ensures
            !succeeded ==> r == Ok::<Option<usize>, SelectError>(None),
            succeeded ==> !(r matches Ok(None)),
            r matches Ok(Some(i)) ==> {
                &&& i < self.keys.len()
                &&& texts(self.keys@)[i as int] == answer_key(output@)
                &&& forall|j: int|
                    0 <= j < self.keys.len() && j != i ==> texts(self.keys@)[j] != answer_key(output@)
            },
            succeeded ==> ((r matches Err(SelectError::NotFound { .. })) <==> forall|j: int|
                0 <= j < self.keys.len() ==> texts(self.keys@)[j] != answer_key(output@)),
            r matches Err(SelectError::NotFound { key }) ==> key@ == answer_key(output@),
            r matches Err(SelectError::Ambiguous { key }) ==> key@ == answer_key(output@) && exists|a: int, b: int|
                0 <= a < b < self.keys.len() && texts(self.keys@)[a] == key@ && texts(self.keys@)[b] == key@,
            !(r matches Err(SelectError::NoSnippets { .. })),
            !(r matches Err(SelectError::NoFilterProgram { .. })),
    {
        if !succeeded {
            return Ok(None);
        }
        let key = strip_ansi_escapes(trim_text(output));
        let ghost ks = texts(self.keys@);
        let mut found: Option<usize> = None;
        let mut i: usize = 0;
        while i < self.keys.len()
            invariant
                succeeded,
                key@ == answer_key(output@),
                i <= self.keys.len(),
                ks == texts(self.keys@),
                found is None ==> forall|j: int| 0 <= j < i ==> ks[j] != key@,
                found matches Some(f) ==> f < i && ks[f as int] == key@ && forall|j: int|
                    0 <= j < i && j != f ==> ks[j] != key@,
            decreases self.keys.len() - i,
        {
            if compare_text(self.keys[i].as_str(), key.as_str()) == 0 {
                match found {
                    Some(f) => {
                        assert(ks[f as int] == key@ && ks[i as int] == key@);
                        return Err(SelectError::Ambiguous { key });
                    },
                    None => {
                        found = Some(i);
                    },
                }
            }
            i = i + 1;
        }
        match found {
            Some(f) => Ok(Some(f)),
            None => Err(SelectError::NotFound { key }),
        }
    }
}

/// One run of the launcher on a list of snippets: the picker is started as
/// the plan says, its answer picks the snippet, which is then run.
#[derive(Debug)]
pub struct Session {
    /// The snippets to choose from.
    pub commands: Vec<CommandDef>,
    /// How the picker is run and read.
    pub plan: PickerPlan,
    /// Whether the command line that is run joins the shell's history.
    pub record_history: bool,
}

/// Starts a run on `commands`: the picker plan of `choose_command`, which
/// the caller carries out, and the choices that the session then resolves.
pub fn select_and_execute_command(
    commands: &Vec<CommandDef>,
    config_dir: &str,
    filter_cmd: &str,
    initial_query: Option<&str>,
    exclude_tags: &Vec<String>,
    overwrite_shell_history: bool,
) -> (r: Result<Session, SelectError>)
    ensures
        commands.len() == 0 <==> r matches Err(SelectError::NoSnippets { looked_in }),
        r matches Err(SelectError::NoSnippets { looked_in }) ==> looked_in@ == config_dir@,
        r matches Err(SelectError::NoFilterProgram { filter }) <==> commands.len() > 0 && words(
            filter_cmd@,
        ).len() == 0,
        r matches Err(SelectError::NoFilterProgram { filter }) ==> filter@ == filter_cmd@,
        !(r matches Err(SelectError::NotFound { .. })),
        !(r matches Err(SelectError::Ambiguous { .. })),
        r matches Ok(s) ==> {
            &&& s.commands@.map_values(|d: CommandDef| d@) == commands@.map_values(|d: CommandDef| d@)
            &&& s.record_history == overwrite_shell_history
            &&& plan_for(s.plan, commands@, filter_cmd@, opt_text(initial_query), texts(exclude_tags@))
        },
{
    match choose_command(commands, config_dir, filter_cmd, initial_query, exclude_tags) {
        Err(e) => Err(e),
        Ok(plan) => {
            let mut owned: Vec<CommandDef> = Vec::new();
            let mut i: usize = 0;
            while i < commands.len()
                invariant
                    i <= commands.len(),
                    owned@.map_values(|d: CommandDef| d@) == commands@.take(i as int).map_values(|d: CommandDef| d@),
                decreases commands.len() - i,
            {
                let ghost o0 = owned@.map_values(|d: CommandDef| d@);
                owned.push(copy_def(&commands[i]));
                assert(owned@.map_values(|d: CommandDef| d@) =~= o0.push(commands@[i as int]@));
                assert(commands@.take(i + 1).map_values(|d: CommandDef| d@) =~= commands@.take(i as int).map_values(|d: CommandDef| d@).push(commands@[i as int]@));
                i = i + 1;
            }
            assert(commands@.take(i as int) =~= commands@);
            Ok(Session { commands: owned, plan, record_history: overwrite_shell_history })
        },
    }
}

} // verus!
