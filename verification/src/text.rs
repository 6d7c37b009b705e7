//! Text building blocks: decimal numerals and separated lists.
use vstd::prelude::*;

verus! {

/// `String::push` appends one character to the end of the string.
pub assume_specification[ String::push ](s: &mut String, c: char)
    ensures
        final(s)@ == old(s)@.push(c),
;

/// Whether a character has the Unicode property `White_Space`.
pub open spec fn white_space(c: char) -> bool {
    let n = c as u32;
    ||| 0x9 <= n <= 0xD
    ||| n == 0x20
    ||| n == 0x85
    ||| n == 0xA0
    ||| n == 0x1680
    ||| 0x2000 <= n <= 0x200A
    ||| n == 0x2028
    ||| n == 0x2029
    ||| n == 0x202F
    ||| n == 0x205F
    ||| n == 0x3000
}

/// `char::is_whitespace` tells whether a character has the Unicode property
/// `White_Space`.
pub assume_specification[ char::is_whitespace ](c: char) -> (r: bool)
    ensures
        r == white_space(c),
;

/// Whether a character beyond ASCII has the Unicode property `Uppercase`.
pub uninterp spec fn wide_upper_case(c: char) -> bool;

/// Whether a character is an upper-case letter: in ASCII the letters from `A`
/// to `Z`.
pub open spec fn upper_case(c: char) -> bool {
    if (c as u32) < 128 {
        'A' <= c <= 'Z'
    } else {
        wide_upper_case(c)
    }
}

/// `char::is_uppercase` tells whether a character has the Unicode property
/// `Uppercase`. In ASCII that is the letters from `A` to `Z`; which other
/// characters have it is not stated here.
pub assume_specification[ char::is_uppercase ](c: char) -> (r: bool)
    ensures
        r == if (c as u32) < 128 {
            'A' <= c <= 'Z'
        } else {
            wide_upper_case(c)
        },
;

/// A string as Rust's debug output writes it.
pub uninterp spec fn debug_text(s: Seq<char>) -> Seq<char>;

/// `format!` with `{:?}` writes a string with its `Debug` implementation: in
/// quotes, with some characters escaped. Which ones is not stated here.
#[verifier::external_body]
pub(crate) fn debug_string(s: &str) -> (r: String)
    ensures
        r@ == debug_text(s@),
{
    format!("{:?}", s)
}

/// The character of a decimal digit.
pub open spec fn digit(d: nat) -> char {
    ('0' as int + d) as char
}

/// Decimal numeral of `n`, without leading zeros.
pub open spec fn decimal(n: nat) -> Seq<char>
    decreases n,
{
    if n < 10 {
        seq![digit(n)]
    } else {
        decimal(n / 10).push(digit(n % 10))
    }
}

/// The parts one after the other, with `sep` between neighbours.
pub open spec fn join(parts: Seq<Seq<char>>, sep: Seq<char>) -> Seq<char>
    decreases parts.len(),
{
    if parts.len() == 0 {
        Seq::empty()
    } else if parts.len() == 1 {
        parts[0]
    } else {
        join(parts.drop_last(), sep) + sep + parts.last()
    }
}

/// Numbers one after the other, with `sep` between neighbours.
pub open spec fn numbers(ids: Seq<u32>, sep: Seq<char>) -> Seq<char> {
    join(Seq::new(ids.len(), |i: int| decimal(ids[i] as nat)), sep)
}

/// Numbers written as a bracketed list: `[1, 2, 3]`.
pub open spec fn number_list(ids: Seq<u32>) -> Seq<char> {
    "["@ + numbers(ids, ", "@) + "]"@
}

/// Whether the numbers go up.
pub open spec fn ascending(ids: Seq<u32>) -> bool {
    forall|i: int, j: int| 0 <= i < j < ids.len() ==> ids[i] < ids[j]
}

/// The members of a set below `n`, in ascending order.
pub open spec fn list_below(s: Set<u32>, n: nat) -> Seq<u32>
    decreases n,
{
    if n == 0 {
        Seq::empty()
    } else if s.contains((n - 1) as u32) {
        list_below(s, (n - 1) as nat).push((n - 1) as u32)
    } else {
        list_below(s, (n - 1) as nat)
    }
}

/// All members of a set, in ascending order.
pub open spec fn list_all(s: Set<u32>) -> Seq<u32> {
    list_below(s, (u32::MAX + 1) as nat)
}

/// An ascending list of exactly the members of a set below `n` is the list of
/// them.
pub proof fn lemma_list_below(s: Set<u32>, n: nat, ids: Seq<u32>)
    requires
        n <= u32::MAX + 1,
        ascending(ids),
        forall|x: u32| #[trigger] ids.contains(x) <==> s.contains(x) && x < n,
    ensures
        ids == list_below(s, n),
    decreases n,
{
    if n == 0 {
        if ids.len() > 0 {
            assert(ids.contains(ids[0]));
        }
        assert(ids =~= list_below(s, n));
    } else {
        let top = (n - 1) as u32;
        if s.contains(top) {
            assert(ids.contains(top));
            let i = choose|i: int| 0 <= i < ids.len() && ids[i] == top;
            assert(i == ids.len() - 1) by {
                if i < ids.len() - 1 {
                    assert(ids[i] < ids[i + 1]);
                    assert(ids.contains(ids[i + 1]));
                }
            }
            let rest = ids.drop_last();
            assert forall|x: u32| #[trigger] rest.contains(x) <==> s.contains(x) && x < n - 1 by {
                if rest.contains(x) {
                    let j = choose|j: int| 0 <= j < rest.len() && rest[j] == x;
                    assert(ids[j] == x);
                    assert(ids.contains(x));
                    assert(ids[j] < ids[i]);
                }
                if s.contains(x) && x < n - 1 {
                    assert(ids.contains(x));
                    let j = choose|j: int| 0 <= j < ids.len() && ids[j] == x;
                    assert(rest[j] == x);
                }
            }
            lemma_list_below(s, (n - 1) as nat, rest);
            assert(ids =~= rest.push(top));
        } else {
            assert forall|x: u32| #[trigger] ids.contains(x) <==> s.contains(x) && x < n - 1 by {}
            lemma_list_below(s, (n - 1) as nat, ids);
        }
    }
}

/// An iteration over a set meets exactly its members.
pub proof fn lemma_listed(keys: Seq<&u32>, dom: Set<u32>)
    requires
        keys.unref().to_set() == dom,
    ensures
        forall|v: u32| #[trigger]
            dom.contains(v) <==> exists|i: int| 0 <= i < keys.len() && *#[trigger] keys[i] == v,
{
    assert forall|v: u32| #[trigger] dom.contains(v) implies exists|i: int|
        0 <= i < keys.len() && *#[trigger] keys[i] == v by {
        let i = choose|i: int| 0 <= i < keys.unref().len() && keys.unref()[i] == v;
        assert(*keys[i] == v);
    }
    assert forall|i: int| 0 <= i < keys.len() implies dom.contains(*#[trigger] keys[i]) by {
        assert(keys.unref()[i] == *keys[i]);
    }
}

/// Puts a new number where it belongs in an ascending list.
pub fn insert_sorted(ids: &mut Vec<u32>, x: u32)
    requires
        ascending(old(ids)@),
        !old(ids)@.contains(x),
    ensures
        ascending(final(ids)@),
        forall|y: u32| #[trigger] final(ids)@.contains(y) <==> old(ids)@.contains(y) || y == x,
{
    let mut at: usize = 0;
    while at < ids.len() && ids[at] < x
        invariant
            ids@ == old(ids)@,
            at <= ids@.len(),
            forall|i: int| 0 <= i < at ==> ids@[i] < x,
        decreases ids@.len() - at,
    {
        at += 1;
    }
    let ghost before = ids@;
    assert(at < before.len() ==> before[at as int] != x);
    ids.insert(at, x);
    proof {
        assert(ids@[at as int] == x);
        assert forall|y: u32| #[trigger] ids@.contains(y) <==> before.contains(y) || y == x by {
            if before.contains(y) {
                let i = choose|i: int| 0 <= i < before.len() && before[i] == y;
                if i < at {
                    assert(ids@[i] == y);
                } else {
                    assert(ids@[i + 1] == y);
                }
            }
            if ids@.contains(y) && y != x {
                let i = choose|i: int| 0 <= i < ids@.len() && ids@[i] == y;
                if i < at {
                    assert(before[i] == y);
                } else {
                    assert(before[i - 1] == y);
                }
            }
        }
    }
}

/// The characters of a string.
pub fn chars_of(s: &str) -> (r: Vec<char>)
    ensures
        r@ == s@,
{
    broadcast use {vstd::string::axiom_spec_iter, vstd::string::next_postcondition};

    let mut r: Vec<char> = Vec::new();
    for c in it: s.chars()
        invariant
            it.seq() == s@,
            r@ == s@.take(it.index()),
    {
        r.push(c);
    }
    r
}

/// The first character of a string, if it has one.
pub fn first_char(s: &str) -> (r: Option<char>)
    ensures
        r == if s@.len() == 0 {
            None
        } else {
            Some(s@[0])
        },
{
    broadcast use {vstd::string::axiom_spec_iter, vstd::string::next_postcondition};

    let mut it = s.chars();
    it.next()
}

/// The characters from `from` up to `to` as a string.
pub fn text_between(chars: &Vec<char>, from: usize, to: usize) -> (r: String)
    requires
        from <= to <= chars@.len(),
    ensures
        r@ == chars@.subrange(from as int, to as int),
{
    let mut r = String::new();
    let mut i: usize = from;
    while i < to
        invariant
            from <= i <= to <= chars@.len(),
            r@ == chars@.subrange(from as int, i as int),
        decreases to - i,
    {
        r.push(chars[i]);
        i += 1;
        assert(r@ =~= chars@.subrange(from as int, i as int));
    }
    r
}

/// Whether a string is this word.
pub fn is_word(s: &String, word: &str) -> (r: bool)
    ensures
        r == (s@ == word@),
{
    *s == word.to_owned()
}

/// Appends the decimal numeral of `n`.
pub fn push_decimal(out: &mut String, n: u64)
    ensures
        final(out)@ == old(out)@ + decimal(n as nat),
    decreases n,
{
    if n >= 10 {
        push_decimal(out, n / 10);
    }
    let d: u8 = (n % 10) as u8;
    let c: char = (48u8 + d) as char;
    assert(c == digit((n % 10) as nat));
    out.push(c);
}

/// Appends numbers with `sep` between neighbours.
pub fn push_numbers(out: &mut String, ids: &[u32], sep: &str)
    ensures
        final(out)@ == old(out)@ + numbers(ids@, sep@),
{
    let ghost all = Seq::new(ids@.len(), |i: int| decimal(ids@[i] as nat));
    let mut i: usize = 0;
    assert(out@ =~= old(out)@ + join(all.take(0), sep@));
    while i < ids.len()
        invariant
            i <= ids@.len(),
            all == Seq::new(ids@.len(), |i: int| decimal(ids@[i] as nat)),
            out@ == old(out)@ + join(all.take(i as int), sep@),
        decreases ids@.len() - i,
    {
        if i > 0 {
            out.append(sep);
        }
        push_decimal(out, ids[i] as u64);
        assert(all.take(i + 1).drop_last() =~= all.take(i as int));
        assert(all.take(i + 1).last() == all[i as int]);
        assert(out@ =~= old(out)@ + join(all.take(i + 1), sep@));
        i += 1;
    }
    assert(all.take(i as int) =~= all);
}

/// Appends a bracketed list of numbers.
pub fn push_number_list(out: &mut String, ids: &[u32])
    ensures
        final(out)@ == old(out)@ + number_list(ids@),
{
    out.append("[");
    push_numbers(out, ids, ", ");
    out.append("]");
    assert(out@ =~= old(out)@ + number_list(ids@));
}

// ---------------------------------------------------------------------------
// Laws.
// ---------------------------------------------------------------------------
/// Whether a character is a decimal digit.
pub open spec fn is_digit(c: char) -> bool {
    '0' <= c <= '9'
}

/// The number that decimal digits stand for.
pub open spec fn number_of(s: Seq<char>) -> nat
    decreases s.len(),
{
    if s.len() == 0 {
        0
    } else {
        (10 * number_of(s.drop_last()) + (s.last() as int - '0' as int)) as nat
    }
}

/// The numeral of a number is made of digits, stands for that number, and has
/// no leading zero.
pub proof fn numerals_stand_for_their_number(n: nat)
    ensures
        decimal(n).len() > 0,
        forall|i: int| 0 <= i < decimal(n).len() ==> is_digit(#[trigger] decimal(n)[i]),
        number_of(decimal(n)) == n,
        n < 10 ==> decimal(n).len() == 1,
        n > 0 ==> decimal(n)[0] != '0',
    decreases n,
{
    let d = n % 10;
    assert(digit(d) as int == '0' as int + d);
    if n < 10 {
        let s = decimal(n);
        assert(s.drop_last() =~= Seq::<char>::empty());
        assert(s.last() == digit(n));
        assert(number_of(Seq::<char>::empty()) == 0);
    } else {
        numerals_stand_for_their_number(n / 10);
        let s = decimal(n);
        assert(s.drop_last() =~= decimal(n / 10));
        assert(s.last() == digit(d));
        assert(s[0] == decimal(n / 10)[0]);
        assert forall|i: int| 0 <= i < s.len() implies is_digit(#[trigger] s[i]) by {
            if i < s.len() - 1 {
                assert(s[i] == decimal(n / 10)[i]);
            }
        }
    }
}

/// Different numbers have different numerals.
pub proof fn numerals_are_unambiguous(m: nat, n: nat)
    requires
        decimal(m) == decimal(n),
    ensures
        m == n,
{
    numerals_stand_for_their_number(m);
    numerals_stand_for_their_number(n);
}

/// Where the part `i` begins, when each part but the last is followed by a
/// separator.
pub open spec fn part_start(parts: Seq<Seq<char>>, sep: Seq<char>, i: nat) -> nat
    decreases i,
{
    if i == 0 {
        0
    } else {
        part_start(parts, sep, (i - 1) as nat) + parts[i - 1].len() + sep.len()
    }
}

proof fn lemma_part_start(a: Seq<Seq<char>>, b: Seq<Seq<char>>, sep: Seq<char>, i: nat)
    requires
        forall|k: int| 0 <= k < i ==> a[k] == b[k],
    ensures
        part_start(a, sep, i) == part_start(b, sep, i),
    decreases i,
{
    if i > 0 {
        lemma_part_start(a, b, sep, (i - 1) as nat);
    }
}

/// Every part stands in the joined text, in order and whole, with a separator
/// between neighbours, and nothing else stands there.
pub proof fn parts_stand_in_order(parts: Seq<Seq<char>>, sep: Seq<char>, i: nat)
    requires
        i < parts.len(),
    ensures
        ({
            let all = join(parts, sep);
            let from = part_start(parts, sep, i) as int;
            let to = from + parts[i as int].len();
            &&& all.len() + sep.len() == part_start(parts, sep, parts.len())
            &&& to <= all.len()
            &&& all.subrange(from, to) == parts[i as int]
            &&& i + 1 < parts.len() ==> to + sep.len() <= all.len() && all.subrange(
                to,
                to + sep.len(),
            ) == sep
        }),
    decreases parts.len(),
{
    let all = join(parts, sep);
    let n = parts.len();
    let from = part_start(parts, sep, i) as int;
    let to = from + parts[i as int].len();
    if n == 1 {
        assert(all =~= parts[0]);
        assert(part_start(parts, sep, 1) == part_start(parts, sep, 0) + parts[0].len() + sep.len());
        assert(all.subrange(from, to) =~= parts[0]);
    } else {
        let less = parts.drop_last();
        let before = join(less, sep);
        let k = (n - 1) as nat;
        lemma_part_start(less, parts, sep, k);
        parts_stand_in_order(less, sep, (k - 1) as nat);
        assert(all == before + sep + parts.last());
        assert(part_start(parts, sep, n) == part_start(parts, sep, k) + parts[k as int].len()
            + sep.len());
        if i == k {
            assert(all.subrange(from, to) =~= parts[i as int]);
        } else {
            parts_stand_in_order(less, sep, i);
            lemma_part_start(less, parts, sep, i);
            assert(all.subrange(from, to) =~= before.subrange(from, to));
            if i + 1 < k {
                assert(all.subrange(to, to + sep.len()) =~= before.subrange(to, to + sep.len()));
            } else {
                assert(part_start(parts, sep, k) == part_start(parts, sep, i)
                    + parts[i as int].len() + sep.len());
                assert(all.subrange(to, to + sep.len()) =~= sep);
            }
        }
    }
}

/// A joined text begins with the first part.
pub(crate) proof fn lemma_join_first(parts: Seq<Seq<char>>, sep: Seq<char>)
    requires
        parts.len() > 1,
    ensures
        join(parts, sep) == parts[0] + sep + join(parts.skip(1), sep),
    decreases parts.len(),
{
    let rest = parts.skip(1);
    if parts.len() == 2 {
        assert(parts.drop_last() =~= seq![parts[0]]);
        assert(join(seq![parts[0]], sep) == parts[0]);
        assert(rest[0] == parts[1]);
    } else {
        lemma_join_first(parts.drop_last(), sep);
        assert(parts.drop_last().skip(1) =~= rest.drop_last());
        assert(rest.last() == parts.last());
        assert(parts.drop_last()[0] == parts[0]);
        assert(join(parts, sep) =~= parts[0] + sep + join(rest, sep));
    }
}

} // verus!
