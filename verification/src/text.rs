//! Character-level helpers on strings, with contracts over `Seq<char>`.
use vstd::prelude::*;

verus! {

/// `String::push` appends one character to the end of the string.
pub assume_specification[ String::push ](s: &mut String, c: char)
    ensures
        final(s)@ == old(s)@.push(c),
;

/// The text of an optional string, or nothing.
pub open spec fn text_view(text: Option<String>) -> Option<Seq<char>> {
    match text {
        Some(t) => Some(t@),
        None => None,
    }
}

/// The characters of `s`, in order.
pub fn chars_of(s: &str) -> (r: Vec<char>)
    ensures
        r@ == s@,
{
    let mut out: Vec<char> = Vec::new();
    for c in it: s.chars()
        invariant
            out@ == it.seq().take(it.index() as int),
            it.seq() == s@,
    {
        out.push(c);
    }
    out
}

/// The string made of the characters `v[from..to]`.
pub fn string_of_range(v: &Vec<char>, from: usize, to: usize) -> (r: String)
    requires
        from <= to <= v.len(),
    ensures
        r@ == v@.subrange(from as int, to as int),
{
    let mut out = String::new();
    let mut i: usize = from;
    while i < to
        invariant
            from <= i <= to <= v.len(),
            out@ == v@.subrange(from as int, i as int),
        decreases to - i,
    {
        out.push(v[i]);
        i += 1;
    }
    out
}

/// Whether two strings hold the same characters.
pub fn text_eq(a: &str, b: &str) -> (r: bool)
    ensures
        r == (a@ == b@),
{
    let x = chars_of(a);
    let y = chars_of(b);
    chars_eq(&x, &y)
}

/// Whether two character vectors hold the same characters.
pub fn chars_eq(x: &Vec<char>, y: &Vec<char>) -> (r: bool)
    ensures
        r == (x@ == y@),
{
    if x.len() != y.len() {
        return false;
    }
    let mut i: usize = 0;
    while i < x.len()
        invariant
            i <= x.len(),
            x.len() == y.len(),
            x@.take(i as int) == y@.take(i as int),
        decreases x.len() - i,
    {
        if x[i] != y[i] {
            return false;
        }
        assert(x@.take(i + 1) == x@.take(i as int).push(x@[i as int]));
        assert(y@.take(i + 1) == y@.take(i as int).push(y@[i as int]));
        i += 1;
    }
    assert(x@.take(x.len() as int) == x@);
    assert(y@.take(y.len() as int) == y@);
    true
}

/// Whether `pat` occurs in `s` at position `at`.
pub open spec fn occurs_at(s: Seq<char>, pat: Seq<char>, at: int) -> bool {
    0 <= at && at + pat.len() <= s.len() && s.subrange(at, at + pat.len()) == pat
}

/// Whether `pat` occurs somewhere in `s`.
pub open spec fn contains_text(s: Seq<char>, pat: Seq<char>) -> bool {
    exists|at: int| occurs_at(s, pat, at)
}

/// Whether `pat` occurs in `s` at position `at`, on character vectors.
pub fn chars_occur_at(s: &Vec<char>, pat: &Vec<char>, at: usize) -> (r: bool)
    ensures
        r == occurs_at(s@, pat@, at as int),
{
    if pat.len() > s.len() || at > s.len() - pat.len() {
        return false;
    }
    let mut i: usize = 0;
    while i < pat.len()
        invariant
            i <= pat.len(),
            at + pat.len() <= s.len(),
            s@.subrange(at as int, at + i) == pat@.take(i as int),
        decreases pat.len() - i,
    {
        if s[at + i] != pat[i] {
            assert(s@.subrange(at as int, at + pat.len())[i as int] != pat@[i as int]);
            return false;
        }
        assert(s@.subrange(at as int, at + i + 1) == s@.subrange(at as int, at + i).push(
            s@[at + i],
        ));
        assert(pat@.take(i + 1) == pat@.take(i as int).push(pat@[i as int]));
        i += 1;
    }
    assert(pat@.take(pat.len() as int) == pat@);
    true
}

/// Whether `s` begins with `prefix`.
pub fn starts_with(s: &str, prefix: &str) -> (r: bool)
    ensures
        r == prefix@.is_prefix_of(s@),
{
    let x = chars_of(s);
    let p = chars_of(prefix);
    let r = chars_occur_at(&x, &p, 0);
    proof {
        if r {
            assert(s@.subrange(0, p@.len() as int) == prefix@);
        }
        if prefix@.is_prefix_of(s@) {
            assert(s@.subrange(0, p@.len() as int) == prefix@);
        }
    }
    r
}

/// Whether `s` ends with `suffix`.
pub fn ends_with(s: &str, suffix: &str) -> (r: bool)
    ensures
        r == suffix@.is_suffix_of(s@),
{
    let x = chars_of(s);
    let p = chars_of(suffix);
    if p.len() > x.len() {
        return false;
    }
    let r = chars_occur_at(&x, &p, x.len() - p.len());
    proof {
        assert(s@.subrange(s@.len() - p@.len(), s@.len() as int) == s@.skip(
            s@.len() - p@.len(),
        ));
    }
    r
}

/// Whether `pat` occurs somewhere in `s`.
pub fn contains(s: &str, pat: &str) -> (r: bool)
    ensures
        r == contains_text(s@, pat@),
{
    let x = chars_of(s);
    let p = chars_of(pat);
    if p.len() > x.len() {
        assert(forall|at: int| !occurs_at(s@, pat@, at));
        return false;
    }
    let last: usize = x.len() - p.len();
    let mut at: usize = 0;
    while at < last
        invariant
            at <= last,
            last == x.len() - p.len(),
            p.len() <= x.len(),
            x@ == s@,
            p@ == pat@,
            forall|k: int| 0 <= k < at ==> !occurs_at(s@, pat@, k),
        decreases last - at,
    {
        if chars_occur_at(&x, &p, at) {
            return true;
        }
        at += 1;
    }
    let r = chars_occur_at(&x, &p, last);
    assert(!r ==> forall|k: int| !occurs_at(s@, pat@, k));
    r
}

/// Whether `name` is one of `names`.
pub fn contains_name(names: &Vec<String>, name: &str) -> (r: bool)
    ensures
        r == names.deep_view().contains(name@),
{
    let mut i: usize = 0;
    while i < names.len()
        invariant
            i <= names.len(),
            forall|k: int| 0 <= k < i ==> names.deep_view()[k] != name@,
        decreases names.len() - i,
    {
        if text_eq(names[i].as_str(), name) {
            assert(names.deep_view()[i as int] == name@);
            return true;
        }
        i += 1;
    }
    false
}

/// A copy of `names`.
pub fn clone_names(names: &Vec<String>) -> (r: Vec<String>)
    ensures
        r.deep_view() == names.deep_view(),
{
    let mut out: Vec<String> = Vec::new();
    let mut i: usize = 0;
    while i < names.len()
        invariant
            i <= names.len(),
            out.len() == i,
            forall|k: int| 0 <= k < i ==> out@[k]@ == names@[k]@,
        decreases names.len() - i,
    {
        out.push(names[i].clone());
        i += 1;
    }
    assert(out.deep_view() =~= names.deep_view());
    out
}

/// The pieces of `s` between the occurrences of the character `sep`. There
/// is always at least one piece; pieces may be empty.
pub open spec fn split_on(s: Seq<char>, sep: char) -> Seq<Seq<char>>
    decreases s.len(),
{
    if s.len() == 0 {
        seq![Seq::<char>::empty()]
    } else {
        let before = split_on(s.drop_last(), sep);
        if s.last() == sep {
            before.push(Seq::<char>::empty())
        } else {
            before.drop_last().push(before.last().push(s.last()))
        }
    }
}

/// There is always at least one piece, and no piece holds the separator.
pub proof fn lemma_split_on(s: Seq<char>, sep: char)
    ensures
        split_on(s, sep).len() >= 1,
        forall|i: int| 0 <= i < split_on(s, sep).len() ==> !(#[trigger] split_on(s, sep)[i]).contains(sep),
    decreases s.len(),
{
    if s.len() > 0 {
        lemma_split_on(s.drop_last(), sep);
        let before = split_on(s.drop_last(), sep);
        let all = split_on(s, sep);
        assert forall|i: int| 0 <= i < all.len() implies !(#[trigger] all[i]).contains(sep) by {
            if s.last() == sep {
                if i < before.len() {
                    assert(all[i] == before[i]);
                }
            } else {
                if i < before.len() - 1 {
                    assert(all[i] == before[i]);
                } else {
                    let piece = before.last();
                    assert(all[i] == piece.push(s.last()));
                    if all[i].contains(sep) {
                        let k = choose|k: int| 0 <= k < all[i].len() && all[i][k] == sep;
                        assert(piece[k] == sep);
                        assert(piece.contains(sep));
                    }
                }
            }
        }
    }
}

/// The texts `parts` written one after another with `sep` between them.
pub open spec fn join_with(parts: Seq<Seq<char>>, sep: Seq<char>) -> Seq<char>
    decreases parts.len(),
{
    if parts.len() == 0 {
        Seq::empty()
    } else if parts.len() == 1 {
        parts[0]
    } else {
        join_with(parts.drop_last(), sep) + sep + parts.last()
    }
}

/// The pieces of `s` between the occurrences of the character `sep`.
pub fn split_text(s: &str, sep: char) -> (r: Vec<String>)
    ensures
        r.deep_view() == split_on(s@, sep),
{
    let cs = chars_of(s);
    let mut out: Vec<String> = Vec::new();
    let mut start: usize = 0;
    let mut i: usize = 0;
    proof {
        assert(cs@.take(0) =~= Seq::<char>::empty());
        assert(out.deep_view().push(cs@.subrange(0, 0)) =~= seq![Seq::<char>::empty()]);
    }
    while i < cs.len()
        invariant
            start <= i <= cs.len(),
            out.deep_view().push(cs@.subrange(start as int, i as int)) == split_on(
                cs@.take(i as int),
                sep,
            ),
        decreases cs.len() - i,
    {
        let ghost done = out.deep_view();
        let ghost piece = cs@.subrange(start as int, i as int);
        proof {
            assert(cs@.take(i + 1).drop_last() =~= cs@.take(i as int));
            assert(cs@.take(i + 1).last() == cs@[i as int]);
            assert(done.push(piece).drop_last() =~= done);
            assert(done.push(piece).last() == piece);
        }
        if cs[i] == sep {
            out.push(string_of_range(&cs, start, i));
            start = i + 1;
            proof {
                assert(out.deep_view() =~= done.push(piece));
                assert(cs@.subrange(i + 1, i + 1) =~= Seq::<char>::empty());
            }
        } else {
            proof {
                assert(cs@.subrange(start as int, i + 1) =~= piece.push(cs@[i as int]));
            }
        }
        i += 1;
    }
    let ghost done = out.deep_view();
    out.push(string_of_range(&cs, start, i));
    proof {
        assert(cs@.take(i as int) =~= cs@);
        assert(out.deep_view() =~= done.push(cs@.subrange(start as int, i as int)));
    }
    out
}

/// Appends the characters of `more` to `out`.
pub fn append_text(out: &mut String, more: &str)
    ensures
        final(out)@ == old(out)@ + more@,
{
    let cs = chars_of(more);
    let ghost before = out@;
    let mut i: usize = 0;
    proof {
        assert(before + cs@.take(0) =~= before);
    }
    while i < cs.len()
        invariant
            i <= cs.len(),
            out@ == before + cs@.take(i as int),
        decreases cs.len() - i,
    {
        out.push(cs[i]);
        proof {
            assert(cs@.take(i + 1) =~= cs@.take(i as int).push(cs@[i as int]));
        }
        i += 1;
    }
    proof {
        assert(cs@.take(cs.len() as int) =~= cs@);
    }
}

/// The texts `parts` written one after another with `sep` between them.
pub fn join_texts(parts: &Vec<String>, sep: &str) -> (r: String)
    ensures
        r@ == join_with(parts.deep_view(), sep@),
{
    let ghost all = parts.deep_view();
    let mut out = String::new();
    let mut k: usize = 0;
    proof {
        assert(all.take(0) =~= Seq::<Seq<char>>::empty());
    }
    while k < parts.len()
        invariant
            k <= parts.len(),
            all == parts.deep_view(),
            out@ == join_with(all.take(k as int), sep@),
        decreases parts.len() - k,
    {
        proof {
            assert(all.take(k + 1).drop_last() =~= all.take(k as int));
            assert(all.take(k + 1).last() == all[k as int]);
            if k == 0 {
                assert(Seq::<char>::empty() + all[0] =~= all[0]);
            }
        }
        if k > 0 {
            append_text(&mut out, sep);
        }
        append_text(&mut out, parts[k].as_str());
        k += 1;
    }
    proof {
        assert(all.take(k as int) =~= all);
    }
    out
}

/// The character that writes the digit `d`.
pub open spec fn digit(d: nat) -> char {
    if d == 0 {
        '0'
    } else if d == 1 {
        '1'
    } else if d == 2 {
        '2'
    } else if d == 3 {
        '3'
    } else if d == 4 {
        '4'
    } else if d == 5 {
        '5'
    } else if d == 6 {
        '6'
    } else if d == 7 {
        '7'
    } else if d == 8 {
        '8'
    } else {
        '9'
    }
}

/// The number `n` written in decimal digits, without leading zeros.
pub open spec fn decimal(n: nat) -> Seq<char>
    decreases n,
{
    if n < 10 {
        seq![digit(n)]
    } else {
        decimal(n / 10).push(digit(n % 10))
    }
}

/// The character that writes the digit `d`.
pub fn digit_char(d: usize) -> (r: char)
    requires
        d < 10,
    ensures
        r == digit(d as nat),
{
    if d == 0 {
        '0'
    } else if d == 1 {
        '1'
    } else if d == 2 {
        '2'
    } else if d == 3 {
        '3'
    } else if d == 4 {
        '4'
    } else if d == 5 {
        '5'
    } else if d == 6 {
        '6'
    } else if d == 7 {
        '7'
    } else if d == 8 {
        '8'
    } else {
        '9'
    }
}

/// The number `n` written in decimal digits, without leading zeros.
pub fn decimal_text(n: usize) -> (r: String)
    ensures
        r@ == decimal(n as nat),
    decreases n,
{
    if n < 10 {
        let mut out = String::new();
        out.push(digit_char(n));
        assert(out@ =~= seq![digit(n as nat)]);
        out
    } else {
        let mut out = decimal_text(n / 10);
        out.push(digit_char(n % 10));
        out
    }
}

/// The pieces of a text, joined by the character that split them, give the
/// text again.
pub proof fn lemma_join_split(s: Seq<char>, sep: char)
    ensures
        join_with(split_on(s, sep), seq![sep]) == s,
    decreases s.len(),
{
    let pieces = split_on(s, sep);
    if s.len() == 0 {
        assert(pieces[0] =~= s);
    } else {
        let shorter = s.drop_last();
        let before = split_on(shorter, sep);
        lemma_join_split(shorter, sep);
        lemma_split_on(shorter, sep);
        assert(s =~= shorter.push(s.last()));
        if s.last() == sep {
            assert(pieces.drop_last() =~= before);
            assert(join_with(before, seq![sep]) + seq![sep] + Seq::<char>::empty() =~= shorter.push(
                sep,
            ));
        } else {
            let last = before.last().push(s.last());
            if before.len() == 1 {
                assert(before[0] == shorter);
                assert(pieces =~= seq![last]);
            } else {
                let head = before.drop_last();
                assert(pieces.drop_last() =~= head);
                assert(pieces.last() == last);
                assert(join_with(head, seq![sep]) + seq![sep] + last =~= (join_with(
                    head,
                    seq![sep],
                ) + seq![sep] + before.last()).push(s.last()));
            }
        }
    }
}

/// Text without the separator, put after another text, goes to the end of
/// its last piece.
pub proof fn lemma_split_append(a: Seq<char>, b: Seq<char>, sep: char)
    requires
        !b.contains(sep),
    ensures
        split_on(a + b, sep) == split_on(a, sep).drop_last().push(split_on(a, sep).last() + b),
    decreases b.len(),
{
    let pieces = split_on(a, sep);
    lemma_split_on(a, sep);
    if b.len() == 0 {
        assert(a + b =~= a);
        assert(pieces.last() + b =~= pieces.last());
        assert(pieces.drop_last().push(pieces.last()) =~= pieces);
    } else {
        let shorter = b.drop_last();
        assert(b[b.len() - 1] == b.last());
        assert(b.last() != sep);
        assert(!shorter.contains(sep)) by {
            if shorter.contains(sep) {
                let k = choose|k: int| 0 <= k < shorter.len() && shorter[k] == sep;
                assert(b[k] == sep);
            }
        }
        lemma_split_append(a, shorter, sep);
        assert((a + b).drop_last() =~= a + shorter);
        assert((a + b).last() == b.last());
        let before = split_on(a + shorter, sep);
        assert(before.drop_last() =~= pieces.drop_last());
        assert(before.last().push(b.last()) =~= pieces.last() + b);
    }
}

/// Texts without the separator, joined by it and split again, are the
/// same texts.
pub proof fn lemma_split_join(parts: Seq<Seq<char>>, sep: char)
    requires
        parts.len() >= 1,
        forall|i: int| 0 <= i < parts.len() ==> !(#[trigger] parts[i]).contains(sep),
    ensures
        split_on(join_with(parts, seq![sep]), sep) == parts,
    decreases parts.len(),
{
    let none = Seq::<char>::empty();
    if parts.len() == 1 {
        lemma_split_append(none, parts[0], sep);
        assert(none + parts[0] =~= parts[0]);
        assert(split_on(none, sep) =~= seq![none]);
        assert(seq![none].drop_last().push(none + parts[0]) =~= parts);
    } else {
        let head = parts.drop_last();
        assert forall|i: int| 0 <= i < head.len() implies !(#[trigger] head[i]).contains(sep) by {
            assert(head[i] == parts[i]);
        }
        lemma_split_join(head, sep);
        let joined = join_with(head, seq![sep]);
        let with_sep = joined.push(sep);
        assert(with_sep.drop_last() =~= joined);
        assert(split_on(with_sep, sep) == head.push(none));
        lemma_split_append(with_sep, parts.last(), sep);
        assert(joined + seq![sep] + parts.last() =~= with_sep + parts.last());
        assert(head.push(none).drop_last().push(none + parts.last()) =~= parts);
    }
}

/// What is in two lists laid end to end is in one of them.
pub proof fn lemma_concat_contains<A>(a: Seq<A>, b: Seq<A>, x: A)
    ensures
        (a + b).contains(x) <==> (a.contains(x) || b.contains(x)),
{
    let all = a + b;
    if all.contains(x) {
        let k = choose|k: int| 0 <= k < all.len() && all[k] == x;
        if k < a.len() {
            assert(a[k] == x);
        } else {
            assert(b[k - a.len()] == x);
        }
    }
    if a.contains(x) {
        let k = choose|k: int| 0 <= k < a.len() && a[k] == x;
        assert(all[k] == x);
    }
    if b.contains(x) {
        let k = choose|k: int| 0 <= k < b.len() && b[k] == x;
        assert(all[a.len() + k] == x);
    }
}

/// After a text that ends with the separator, the pieces of what follows
/// stand as they are.
pub proof fn lemma_split_concat(a: Seq<char>, b: Seq<char>, sep: char)
    requires
        a.len() > 0,
        a.last() == sep,
    ensures
        split_on(a + b, sep) == split_on(a, sep).drop_last() + split_on(b, sep),
    decreases b.len(),
{
    let head = split_on(a, sep).drop_last();
    lemma_split_on(a, sep);
    lemma_split_on(b, sep);
    if b.len() == 0 {
        assert(a + b =~= a);
        assert(split_on(a, sep) == split_on(a.drop_last(), sep).push(Seq::<char>::empty()));
        assert(head + split_on(b, sep) =~= split_on(a, sep));
    } else {
        let shorter = b.drop_last();
        lemma_split_concat(a, shorter, sep);
        lemma_split_on(shorter, sep);
        assert((a + b).drop_last() =~= a + shorter);
        assert((a + b).last() == b.last());
        let before = split_on(a + shorter, sep);
        let tail = split_on(shorter, sep);
        assert(before == head + tail);
        if b.last() == sep {
            assert(before.push(Seq::<char>::empty()) =~= head + tail.push(Seq::<char>::empty()));
        } else {
            assert(before.drop_last() =~= head + tail.drop_last());
            assert(before.last() == tail.last());
            assert(before.drop_last().push(before.last().push(b.last())) =~= head
                + tail.drop_last().push(tail.last().push(b.last())));
        }
    }
}

} // verus!
