//! Text encoders shared by the reader and the renderer: whitespace trimming,
//! comma-separated lists, and decimal numbers.
use vstd::prelude::*;
use vstd::string::StrSliceExecFns;
use vstd::string::StringExecFns;

verus! {

/// The characters that `char::is_whitespace` accepts (Unicode `White_Space`).
pub open spec fn is_ws(c: char) -> bool {
    let u = c as u32;
    (0x9 <= u && u <= 0xD) || u == 0x20 || u == 0x85 || u == 0xA0 || u == 0x1680
        || (0x2000 <= u && u <= 0x200A) || u == 0x2028 || u == 0x2029 || u == 0x202F
        || u == 0x205F || u == 0x3000
}

/// `s` without its leading whitespace.
pub open spec fn trim_start(s: Seq<char>) -> Seq<char>
    decreases s.len(),
{
    if s.len() > 0 && is_ws(s[0]) {
        trim_start(s.drop_first())
    } else {
        s
    }
}

/// `s` without its trailing whitespace.
pub open spec fn trim_end(s: Seq<char>) -> Seq<char>
    decreases s.len(),
{
    if s.len() > 0 && is_ws(s.last()) {
        trim_end(s.drop_last())
    } else {
        s
    }
}

/// `s` without leading or trailing whitespace.
pub open spec fn trim(s: Seq<char>) -> Seq<char> {
    trim_end(trim_start(s))
}

/// The pieces of `s` between commas, in order; `s` without a comma is one piece.
pub open spec fn split_commas(s: Seq<char>) -> Seq<Seq<char>>
    decreases s.len(),
{
    if s.len() == 0 {
        seq![Seq::empty()]
    } else {
        let rest = split_commas(s.drop_last());
        if s.last() == ',' {
            rest.push(Seq::empty())
        } else {
            rest.update(rest.len() - 1, rest.last().push(s.last()))
        }
    }
}

/// The trimmed pieces that are not empty, in order.
pub open spec fn nonempty_trimmed(pieces: Seq<Seq<char>>) -> Seq<Seq<char>>
    decreases pieces.len(),
{
    if pieces.len() == 0 {
        Seq::empty()
    } else {
        let rest = nonempty_trimmed(pieces.drop_last());
        if trim(pieces.last()).len() > 0 {
            rest.push(trim(pieces.last()))
        } else {
            rest
        }
    }
}

/// A comma-separated list: its trimmed, non-empty tokens in order.
pub open spec fn split_list(s: Seq<char>) -> Seq<Seq<char>> {
    nonempty_trimmed(split_commas(s))
}

/// The items joined with `", "`; no items give the empty text.
pub open spec fn join(items: Seq<Seq<char>>) -> Seq<char>
    decreases items.len(),
{
    if items.len() == 0 {
        Seq::empty()
    } else if items.len() == 1 {
        items[0]
    } else {
        join(items.drop_last()) + seq![',', ' '] + items.last()
    }
}

/// The decimal digit of `d`, for `0 <= d < 10`.
pub open spec fn digit_char(d: int) -> char {
    if d == 0 {
        '0'
    } else if d == 1 {
        '1'
    } else if d == 2 {
        '2'
    } else if d == 3 {
        '3'
    } else if d == 4 {
        '4'
    } else if d == 5 {
        '5'
    } else if d == 6 {
        '6'
    } else if d == 7 {
        '7'
    } else if d == 8 {
        '8'
    } else {
        '9'
    }
}

/// The decimal digits of a natural number, most significant first.
pub open spec fn digits(n: nat) -> Seq<char>
    decreases n,
{
    if n < 10 {
        seq![digit_char(n as int)]
    } else {
        digits(n / 10).push(digit_char((n % 10) as int))
    }
}

/// An integer in decimal, with a leading `-` when it is negative.
pub open spec fn decimal(i: int) -> Seq<char> {
    if i < 0 {
        seq!['-'] + digits((-i) as nat)
    } else {
        digits(i as nat)
    }
}

/// Relies on `String::push`: the character is appended at the end.
#[verifier::external_body]
pub(crate) fn push_char(s: &mut String, c: char)
    ensures
        final(s)@ == old(s)@.push(c),
{
    s.push(c)
}

/// Whether `c` is whitespace, as `char::is_whitespace` decides it.
pub fn is_whitespace(c: char) -> (r: bool)
    ensures
        r == is_ws(c),
{
    let u = c as u32;
    (0x9 <= u && u <= 0xD) || u == 0x20 || u == 0x85 || u == 0xA0 || u == 0x1680
        || (0x2000 <= u && u <= 0x200A) || u == 0x2028 || u == 0x2029 || u == 0x202F
        || u == 0x205F || u == 0x3000
}

fn digit(d: u64) -> (c: char)
    requires
        d < 10,
    ensures
        c == digit_char(d as int),
{
    if d == 0 {
        '0'
    } else if d == 1 {
        '1'
    } else if d == 2 {
        '2'
    } else if d == 3 {
        '3'
    } else if d == 4 {
        '4'
    } else if d == 5 {
        '5'
    } else if d == 6 {
        '6'
    } else if d == 7 {
        '7'
    } else if d == 8 {
        '8'
    } else {
        '9'
    }
}

fn push_digits(s: &mut String, n: u64)
    ensures
        final(s)@ == old(s)@ + digits(n as nat),
    decreases n,
{
    if n >= 10 {
        push_digits(s, n / 10);
    }
    push_char(s, digit(n % 10));
    assert(final(s)@ =~= old(s)@ + digits(n as nat));
}

/// Appends `i` in decimal to `s`.
pub fn push_decimal(s: &mut String, i: i64)
    ensures
        final(s)@ == old(s)@ + decimal(i as int),
{
    if i < 0 {
        push_char(s, '-');
        let m: u64 = ((-(i + 1)) as u64) + 1;
        push_digits(s, m);
        assert(final(s)@ =~= old(s)@ + decimal(i as int));
    } else {
        push_digits(s, i as u64);
    }
}

/// The texts of a sequence of strings.
pub open spec fn views(v: Seq<String>) -> Seq<Seq<char>> {
    v.map_values(|x: String| x@)
}

/// `s` without leading or trailing whitespace.
pub fn trim_text(s: &str) -> (r: String)
    ensures
        r@ == trim(s@),
{
    let n = s.unicode_len();
    let mut a: usize = 0;
    assert(s@.subrange(0, n as int) =~= s@);
    while a < n && is_whitespace(s.get_char(a))
        invariant
            a <= n,
            n == s@.len(),
            trim_start(s@) == trim_start(s@.subrange(a as int, n as int)),
        decreases n - a,
    {
        assert(s@.subrange(a as int, n as int).drop_first() =~= s@.subrange(a + 1, n as int));
        a = a + 1;
    }
    assert(trim_start(s@) == s@.subrange(a as int, n as int));
    let mut b: usize = n;
    while b > a && is_whitespace(s.get_char(b - 1))
        invariant
            a <= b <= n,
            n == s@.len(),
            trim(s@) == trim_end(s@.subrange(a as int, b as int)),
        decreases b - a,
    {
        assert(s@.subrange(a as int, b as int).drop_last() =~= s@.subrange(a as int, b - 1));
        b = b - 1;
    }
    let t = s.substring_char(a, b);
    String::from_str(t)
}

/// Splits a comma-separated list into its trimmed, non-empty tokens.
pub fn split_text(s: &str) -> (r: Vec<String>)
    ensures
        views(r@) == split_list(s@),
{
    let n = s.unicode_len();
    let mut r: Vec<String> = Vec::new();
    let mut cur = String::new();
    let mut i: usize = 0;
    while i < n
        invariant
            i <= n,
            n == s@.len(),
            split_commas(s@.subrange(0, i as int)).len() > 0,
            cur@ == split_commas(s@.subrange(0, i as int)).last(),
            views(r@) == nonempty_trimmed(split_commas(s@.subrange(0, i as int)).drop_last()),
        decreases n - i,
    {
        let ghost pre = s@.subrange(0, i as int);
        let c = s.get_char(i);
        assert(s@.subrange(0, i + 1).drop_last() =~= pre);
        assert(s@.subrange(0, i + 1).last() == c);
        let ghost sc = split_commas(pre);
        if c == ',' {
            let t = trim_text(cur.as_str());
            if t.unicode_len() > 0 {
                r.push(t);
            }
            cur = String::new();
            assert(split_commas(s@.subrange(0, i + 1)) == sc.push(Seq::empty()));
            assert(sc.push(Seq::empty()).drop_last() =~= sc);
            assert(sc.drop_last().push(sc.last()) =~= sc);
            assert(views(r@) =~= nonempty_trimmed(sc));
        } else {
            push_char(&mut cur, c);
            assert(split_commas(s@.subrange(0, i + 1)) == sc.update(sc.len() - 1, sc.last().push(c)));
            assert(split_commas(s@.subrange(0, i + 1)).drop_last() =~= sc.drop_last());
        }
        i = i + 1;
    }
    assert(s@.subrange(0, n as int) =~= s@);
    let t = trim_text(cur.as_str());
    if t.unicode_len() > 0 {
        r.push(t);
    }
    assert(split_commas(s@).len() > 0) by {
        lemma_split_commas_nonempty(s@);
    }
    assert(split_commas(s@).drop_last().push(split_commas(s@).last()) =~= split_commas(s@));
    assert(views(r@) =~= split_list(s@));
    r
}

proof fn lemma_split_commas_nonempty(s: Seq<char>)
    ensures
        split_commas(s).len() > 0,
    decreases s.len(),
{
    if s.len() > 0 {
        lemma_split_commas_nonempty(s.drop_last());
    }
}

/// The items joined with `", "`.
pub fn format_list(list: &Vec<String>) -> (r: String)
    ensures
        r@ == join(views(list@)),
{
    let mut r = String::new();
    let mut i: usize = 0;
    while i < list.len()
        invariant
            i <= list@.len(),
            r@ == join(views(list@).take(i as int)),
        decreases list@.len() - i,
    {
        assert(views(list@).take(i + 1).drop_last() =~= views(list@).take(i as int));
        if i > 0 {
            push_char(&mut r, ',');
            push_char(&mut r, ' ');
        }
        r.append(list[i].as_str());
        i = i + 1;
        assert(r@ =~= join(views(list@).take(i as int)));
    }
    assert(views(list@).take(i as int) =~= views(list@));
    r
}

/// Whether two texts are equal, character by character.
pub fn str_eq(a: &str, b: &str) -> (r: bool)
    ensures
        r == (a@ == b@),
{
    let n = a.unicode_len();
    if n != b.unicode_len() {
        return false;
    }
    let mut i: usize = 0;
    while i < n
        invariant
            i <= n,
            n == a@.len(),
            n == b@.len(),
            a@.take(i as int) == b@.take(i as int),
        decreases n - i,
    {
        if a.get_char(i) != b.get_char(i) {
            return false;
        }
        assert(a@.take(i + 1) =~= a@.take(i as int).push(a@[i as int]));
        assert(b@.take(i + 1) =~= b@.take(i as int).push(b@[i as int]));
        i = i + 1;
    }
    assert(a@ =~= a@.take(n as int));
    assert(b@ =~= b@.take(n as int));
    true
}

/// A token as a comma-separated list yields it: not empty, trimmed, no comma.
pub open spec fn is_token(x: Seq<char>) -> bool {
    x.len() > 0 && trim(x) == x && forall|i: int| 0 <= i < x.len() ==> x[i] != ','
}

proof fn lemma_trim_start_suffix(s: Seq<char>)
    ensures
        trim_start(s).len() <= s.len(),
        trim_start(s) == s.skip(s.len() - trim_start(s).len()),
        trim_start(s).len() > 0 ==> !is_ws(trim_start(s)[0]),
    decreases s.len(),
{
    if s.len() > 0 && is_ws(s[0]) {
        lemma_trim_start_suffix(s.drop_first());
        assert(s.drop_first().skip(s.drop_first().len() - trim_start(s).len()) =~= s.skip(
            s.len() - trim_start(s).len(),
        ));
    } else {
        assert(s.skip(0) =~= s);
    }
}

proof fn lemma_trim_end_prefix(s: Seq<char>)
    ensures
        trim_end(s).len() <= s.len(),
        trim_end(s) == s.take(trim_end(s).len() as int),
        trim_end(s).len() > 0 ==> !is_ws(trim_end(s).last()),
    decreases s.len(),
{
    if s.len() > 0 && is_ws(s.last()) {
        lemma_trim_end_prefix(s.drop_last());
        assert(s.drop_last().take(trim_end(s).len() as int) =~= s.take(trim_end(s).len() as int));
    } else {
        assert(s.take(s.len() as int) =~= s);
    }
}

proof fn lemma_trim_idempotent(y: Seq<char>)
    ensures
        trim(trim(y)) == trim(y),
{
    let w = trim_start(y);
    let z = trim_end(w);
    lemma_trim_start_suffix(y);
    lemma_trim_end_prefix(w);
    if z.len() > 0 {
        assert(z[0] == w[0]);
        assert(trim_start(z) == z);
        assert(trim_end(z) == z);
    }
}

proof fn lemma_trim_no_comma(y: Seq<char>)
    requires
        forall|i: int| 0 <= i < y.len() ==> y[i] != ',',
    ensures
        forall|i: int| 0 <= i < trim(y).len() ==> trim(y)[i] != ',',
{
    let w = trim_start(y);
    lemma_trim_start_suffix(y);
    lemma_trim_end_prefix(w);
    assert forall|i: int| 0 <= i < trim(y).len() implies trim(y)[i] != ',' by {
        assert(trim(y)[i] == w[i]);
        assert(w[i] == y[y.len() - w.len() + i]);
    }
}

proof fn lemma_pieces_no_comma(s: Seq<char>)
    ensures
        split_commas(s).len() > 0,
        forall|k: int, i: int|
            0 <= k < split_commas(s).len() && 0 <= i < split_commas(s)[k].len()
                ==> split_commas(s)[k][i] != ',',
    decreases s.len(),
{
    if s.len() > 0 {
        lemma_pieces_no_comma(s.drop_last());
        let rest = split_commas(s.drop_last());
        if s.last() != ',' {
            assert forall|k: int, i: int|
                0 <= k < split_commas(s).len() && 0 <= i < split_commas(s)[k].len()
                    implies split_commas(s)[k][i] != ',' by {
                if k == rest.len() - 1 && i == rest.last().len() {
                } else if k == rest.len() - 1 {
                    assert(split_commas(s)[k][i] == rest[k][i]);
                }
            }
        }
    }
}

proof fn lemma_nonempty_trimmed_tokens(pieces: Seq<Seq<char>>)
    requires
        forall|k: int, i: int| 0 <= k < pieces.len() && 0 <= i < pieces[k].len() ==> pieces[k][i] != ',',
    ensures
        forall|k: int| 0 <= k < nonempty_trimmed(pieces).len() ==> is_token(#[trigger] nonempty_trimmed(pieces)[k]),
    decreases pieces.len(),
{
    if pieces.len() > 0 {
        lemma_nonempty_trimmed_tokens(pieces.drop_last());
        let p = pieces.last();
        lemma_trim_idempotent(p);
        assert(forall|i: int| 0 <= i < p.len() ==> p[i] != ',') by {
            assert forall|i: int| 0 <= i < p.len() implies p[i] != ',' by {
                assert(pieces[pieces.len() - 1][i] != ',');
            }
        }
        lemma_trim_no_comma(p);
        let prev = nonempty_trimmed(pieces.drop_last());
        assert forall|k: int| 0 <= k < nonempty_trimmed(pieces).len() implies is_token(
            #[trigger] nonempty_trimmed(pieces)[k],
        ) by {
            if k < prev.len() {
                assert(nonempty_trimmed(pieces)[k] == prev[k]);
            }
        }
    }
}

proof fn lemma_split_commas_append(a: Seq<char>, b: Seq<char>)
    requires
        forall|i: int| 0 <= i < b.len() ==> b[i] != ',',
    ensures
        split_commas(a + b) == split_commas(a).update(
            split_commas(a).len() - 1,
            split_commas(a).last() + b,
        ),
    decreases b.len(),
{
    lemma_pieces_no_comma(a);
    if b.len() == 0 {
        assert(a + b =~= a);
        assert(split_commas(a).last() + b =~= split_commas(a).last());
        assert(split_commas(a).update(split_commas(a).len() - 1, split_commas(a).last())
            =~= split_commas(a));
    } else {
        lemma_split_commas_append(a, b.drop_last());
        assert((a + b).drop_last() =~= a + b.drop_last());
        assert((a + b).last() == b.last());
        assert(b.last() != ',');
        assert((split_commas(a).last() + b.drop_last()).push(b.last()) =~= split_commas(a).last()
            + b);
        assert(split_commas(a + b) =~= split_commas(a).update(
            split_commas(a).len() - 1,
            split_commas(a).last() + b,
        ));
    }
}

proof fn lemma_trim_space_token(x: Seq<char>)
    requires
        is_token(x),
    ensures
        trim(seq![' '] + x) == x,
{
    let y = seq![' '] + x;
    assert(is_ws(y[0]));
    assert(y.drop_first() =~= x);
    assert(trim_start(y) == trim_start(x));
}

proof fn lemma_split_join_tokens(t: Seq<Seq<char>>)
    requires
        forall|k: int| 0 <= k < t.len() ==> is_token(#[trigger] t[k]),
    ensures
        split_list(join(t)) == t,
    decreases t.len(),
{
    let e = Seq::<char>::empty();
    lemma_split_commas_append(e, e);
    if t.len() == 0 {
        assert(split_commas(e) == seq![e]);
        assert(trim_start(e) == e);
        assert(trim_end(e) == e);
        assert(seq![e].drop_last() =~= Seq::<Seq<char>>::empty());
        assert(nonempty_trimmed(Seq::<Seq<char>>::empty()) == Seq::<Seq<char>>::empty());
        assert(nonempty_trimmed(seq![e]).len() == 0);
        assert(split_list(join(t)) =~= t);
    } else if t.len() == 1 {
        let x = t[0];
        lemma_split_commas_append(e, x);
        assert(e + x =~= x);
        assert(split_commas(x) =~= seq![x]);
        assert(seq![x].drop_last() =~= Seq::<Seq<char>>::empty());
        assert(nonempty_trimmed(Seq::<Seq<char>>::empty()) == Seq::<Seq<char>>::empty());
        assert(is_token(t[0]));
        assert(seq![x].last() == x);
        assert(nonempty_trimmed(seq![x]) =~= seq![x]);
        assert(split_list(join(t)) =~= t);
    } else {
        let x = t.last();
        let front = t.drop_last();
        lemma_split_join_tokens(front);
        let jf = join(front);
        let rest = seq![' '] + x;
        assert forall|i: int| 0 <= i < rest.len() implies rest[i] != ',' by {
            if i > 0 {
                assert(rest[i] == x[i - 1]);
            }
        }
        lemma_split_commas_append(jf.push(','), rest);
        lemma_split_commas_append(jf, e);
        assert(jf.push(',').drop_last() =~= jf);
        assert(join(t) =~= jf.push(',') + rest);
        let pieces = split_commas(jf.push(','));
        assert(pieces == split_commas(jf).push(e));
        assert(pieces.last() + rest =~= rest);
        assert(split_commas(join(t)) =~= split_commas(jf).push(rest));
        lemma_trim_space_token(x);
        assert(split_commas(jf).push(rest).drop_last() =~= split_commas(jf));
        assert(split_list(join(t)) =~= t);
    }
}

/// Joining the tokens of a comma-separated list with `", "` and splitting
/// the result again gives the same tokens.
pub proof fn lemma_split_join_split(s: Seq<char>)
    ensures
        split_list(join(split_list(s))) == split_list(s),
{
    lemma_pieces_no_comma(s);
    lemma_nonempty_trimmed_tokens(split_commas(s));
    lemma_split_join_tokens(split_list(s));
}

} // verus!
