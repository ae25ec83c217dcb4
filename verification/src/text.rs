//! Character-level utilities: conversions between `String` and `Vec<char>`,
//! decimal rendering and parsing of generation numbers, and the segment file
//! naming scheme `<gen>.log`.

use vstd::prelude::*;

verus! {

use vstd::std_specs::iter::IteratorSpec;
use vstd::multiset::Multiset;

/// The decimal digit character for `d`, for `0 <= d < 10`.
pub open spec fn digit_char(d: int) -> char {
    ((48 + d) as u8) as char
}

/// The code point of `digit_char(k)` is `48 + k`.
proof fn lemma_digit_char_val(k: int)
    requires
        0 <= k < 10,
    ensures
        digit_char(k) as u32 == 48 + k,
        is_digit(digit_char(k)),
{
}

/// Characters with the same code point are the same character.
proof fn lemma_char_inj(c1: char, c2: char)
    requires
        c1 as u32 == c2 as u32,
    ensures
        c1 == c2,
{
    vstd::utf8::char_u32_cast(c1, c1 as u32);
    vstd::utf8::char_u32_cast(c2, c2 as u32);
}

/// The canonical decimal representation of `n`: no sign, no leading zeros.
pub open spec fn dec_rep(n: nat) -> Seq<char>
    decreases n,
{
    if n < 10 {
        seq![digit_char(n as int)]
    } else {
        dec_rep(n / 10).push(digit_char((n % 10) as int))
    }
}

/// True of a decimal digit character.
pub open spec fn is_digit(c: char) -> bool {
    48 <= c as u32 <= 57
}

/// The value of a digit string, read left to right.
pub open spec fn digits_val(s: Seq<char>) -> int
    decreases s.len(),
{
    if s.len() == 0 {
        0
    } else {
        digits_val(s.drop_last()) * 10 + (s.last() as u32 - 48)
    }
}

/// A canonical decimal string: non-empty, all digits, no leading zero.
pub open spec fn is_canonical_dec(s: Seq<char>) -> bool {
    &&& s.len() > 0
    &&& forall|i: int| 0 <= i < s.len() ==> is_digit(#[trigger] s[i])
    &&& (s[0] != '0' || s.len() == 1)
}

/// `dec_rep(n)` is canonical and evaluates back to `n`.
pub proof fn lemma_dec_rep_ok(n: nat)
    ensures
        is_canonical_dec(dec_rep(n)),
        digits_val(dec_rep(n)) == n,
    decreases n,
{
    if n < 10 {
        assert(dec_rep(n) == seq![digit_char(n as int)]);
        assert(digits_val(dec_rep(n)) == digits_val(dec_rep(n).drop_last()) * 10 + (dec_rep(
            n,
        ).last() as u32 - 48));
        assert(dec_rep(n).drop_last() =~= Seq::<char>::empty());
        assert(digits_val(Seq::<char>::empty()) == 0);
        lemma_digit_char_val(n as int);
    } else {
        lemma_dec_rep_ok(n / 10);
        let p = dec_rep(n / 10);
        let d = digit_char((n % 10) as int);
        assert(dec_rep(n) == p.push(d));
        assert(dec_rep(n).drop_last() =~= p);
        assert(dec_rep(n).last() == d);
        assert(n % 10 < 10) by {
            vstd::arithmetic::div_mod::lemma_mod_bound(n as int, 10);
        }
        assert(d as u32 == 48 + n % 10) by {
            lemma_digit_char_val((n % 10) as int);
        }
        assert(digits_val(dec_rep(n)) == digits_val(p) * 10 + (n % 10));
        assert(digits_val(p) == n / 10);
        assert((n / 10) * 10 + n % 10 == n) by {
            vstd::arithmetic::div_mod::lemma_fundamental_div_mod(n as int, 10);
        }
        assert(is_digit(d));
        assert(forall|i: int| 0 <= i < p.len() ==> is_digit(#[trigger] dec_rep(n)[i]));
        assert(n / 10 >= 1) by {
            vstd::arithmetic::div_mod::lemma_div_is_ordered(10, n as int, 10);
            assert(10int / 10 == 1);
        }
        assert(p[0] != '0') by {
            if p.len() == 1 {
                assert(digits_val(p) == digits_val(p.drop_last()) * 10 + (p.last() as u32 - 48));
                assert(p.drop_last() =~= Seq::<char>::empty());
                assert(p.last() == p[0]);
                assert(p[0] as u32 - 48 >= 1);
                assert('0' as u32 == 48);
            }
        }
        assert(dec_rep(n)[0] == p[0]);
    }
}

/// The value of a digit string is monotone in its prefixes.
pub proof fn lemma_digits_val_prefix_le(s: Seq<char>, i: int)
    requires
        0 <= i <= s.len(),
        forall|j: int| 0 <= j < s.len() ==> is_digit(#[trigger] s[j]),
        forall|j: int| 0 <= j < s.len() ==> digits_val(s.take(j)) >= 0,
    ensures
        digits_val(s.take(i)) <= digits_val(s),
    decreases s.len() - i,
{
    if i == s.len() {
        assert(s.take(i) =~= s);
    } else {
        lemma_digits_val_prefix_le(s, i + 1);
        assert(s.take(i + 1).drop_last() =~= s.take(i));
        assert(digits_val(s.take(i + 1)) == digits_val(s.take(i)) * 10 + (s[i] as u32 - 48));
        assert(digits_val(s.take(i)) >= 0);
        assert(digits_val(s.take(i)) <= digits_val(s.take(i)) * 10) by (nonlinear_arith)
            requires digits_val(s.take(i)) >= 0;
    }
}

/// All prefixes of a digit string have non-negative value.
pub proof fn lemma_digits_val_nonneg(s: Seq<char>)
    requires
        forall|j: int| 0 <= j < s.len() ==> is_digit(#[trigger] s[j]),
    ensures
        digits_val(s) >= 0,
    decreases s.len(),
{
    if s.len() > 0 {
        assert(forall|j: int|
            0 <= j < s.drop_last().len() ==> is_digit(#[trigger] s.drop_last()[j]));
        lemma_digits_val_nonneg(s.drop_last());
        assert(digits_val(s.drop_last()) * 10 >= 0) by (nonlinear_arith)
            requires digits_val(s.drop_last()) >= 0;
    }
}

/// Appends one character to a string.
///
/// Relies on `String::push`: it appends exactly the given character.
#[verifier::external_body]
pub fn push_char(s: &mut String, c: char)
    ensures
        final(s)@ == old(s)@.push(c),
{
    s.push(c);
}

/// The characters of a string slice, in order.
pub fn str_chars(s: &str) -> (r: Vec<char>)
    ensures
        r@ == s@,
{
    broadcast use vstd::string::group_string_axioms;

    let mut it = s.chars();
    let mut r: Vec<char> = Vec::new();
    loop
        invariant
            it.obeys_prophetic_iter_laws(),
            it.decrease() is Some,
            r@ + it.remaining() == s@,
        decreases it.decrease()->0,
    {
        match it.next() {
            Some(c) => {
                r.push(c);
            },
            None => {
                proof {
                    assert(r@ =~= s@);
                }
                return r;
            },
        }
    }
}

/// The string holding exactly the given characters.
pub fn chars_to_string(v: &Vec<char>) -> (r: String)
    ensures
        r@ == v@,
{
    let mut r = String::new();
    let mut i: usize = 0;
    while i < v.len()
        invariant
            i <= v.len(),
            r@ == v@.take(i as int),
        decreases v.len() - i,
    {
        push_char(&mut r, v[i]);
        i = i + 1;
        proof {
            assert(r@ =~= v@.take(i as int));
        }
    }
    proof {
        assert(r@ =~= v@);
    }
    r
}

/// The canonical decimal rendering of `n`.
pub fn u64_to_string(n: u64) -> (r: String)
    ensures
        r@ == dec_rep(n as nat),
{
    let chars = u64_to_chars(n);
    chars_to_string(&chars)
}

/// The canonical decimal rendering of `n`, as characters.
pub fn u64_to_chars(n: u64) -> (r: Vec<char>)
    ensures
        r@ == dec_rep(n as nat),
{
    let mut buf: Vec<char> = Vec::new();
    let mut m = n;
    while m >= 10
        invariant
            dec_rep(n as nat) == dec_rep(m as nat) + buf@.reverse(),
        decreases m,
    {
        let d = (m % 10) as u8;
        buf.push(digit_to_char(d));
        proof {
            assert(dec_rep(m as nat) == dec_rep((m as nat) / 10).push(
                digit_char((m as nat % 10) as int),
            ));
            assert((m as nat) / 10 == (m / 10) as nat);
            assert(buf@.reverse() =~= seq![digit_char((m as nat % 10) as int)]
                + buf@.drop_last().reverse());
            assert(dec_rep(n as nat) =~= dec_rep((m / 10) as nat) + buf@.reverse());
        }
        m = m / 10;
    }
    buf.push(digit_to_char(m as u8));
    proof {
        assert(dec_rep(m as nat) == seq![digit_char(m as int)]);
        assert(buf@.reverse() =~= seq![digit_char(m as int)] + buf@.drop_last().reverse());
        assert(dec_rep(n as nat) =~= buf@.reverse());
    }
    let mut r: Vec<char> = Vec::new();
    let mut i: usize = 0;
    let len = buf.len();
    while i < len
        invariant
            i <= len,
            len == buf.len(),
            r@ =~= buf@.reverse().take(i as int),
        decreases len - i,
    {
        r.push(buf[len - 1 - i]);
        i = i + 1;
        proof {
            assert(r@ =~= buf@.reverse().take(i as int));
        }
    }
    proof {
        assert(r@ =~= buf@.reverse());
    }
    r
}

/// The digit character for `d < 10`.
fn digit_to_char(d: u8) -> (r: char)
    requires
        d < 10,
    ensures
        r == digit_char(d as int),
{
    proof {
        assert(((48 + d as int) as u8) as char == ((48 + d as int) as u8) as char);
    }
    (48 + d) as char
}

/// Parses a canonical decimal string into a `u64`.
///
/// Returns `Some(v)` exactly when the characters are the canonical decimal
/// representation of a value `v` that fits in a `u64`.
pub fn parse_u64(s: &Vec<char>) -> (r: Option<u64>)
    ensures
        match r {
            Some(v) => s@ == dec_rep(v as nat),
            None => forall|v: u64| s@ != dec_rep(v as nat),
        },
{
    proof {
        if exists|v: u64| s@ == dec_rep(v as nat) {
            let v = choose|v: u64| s@ == dec_rep(v as nat);
            lemma_dec_rep_ok(v as nat);
        }
    }
    if s.len() == 0 {
        return None;
    }
    if s.len() > 1 && s[0] == '0' {
        proof {
            if exists|v: u64| s@ == dec_rep(v as nat) {
                let v = choose|v: u64| s@ == dec_rep(v as nat);
                lemma_dec_rep_ok(v as nat);
                assert(!is_canonical_dec(s@));
            }
        }
        return None;
    }
    let mut acc: u64 = 0;
    let mut i: usize = 0;
    while i < s.len()
        invariant
            0 <= i <= s@.len(),
            forall|j: int| 0 <= j < i ==> is_digit(#[trigger] s@[j]),
            acc as int == digits_val(s@.take(i as int)),
            s@.len() > 0,
            s@[0] != '0' || s@.len() == 1,
        decreases s@.len() - i,
    {
        let c = s[i];
        let cu = c as u32;
        if cu < 48 || cu > 57 {
            proof {
                if exists|v: u64| s@ == dec_rep(v as nat) {
                    let v = choose|v: u64| s@ == dec_rep(v as nat);
                    lemma_dec_rep_ok(v as nat);
                }
            }
            return None;
        }
        let d = (cu - 48) as u64;
        proof {
            assert(s@.take(i + 1).drop_last() =~= s@.take(i as int));
            assert(s@.take(i + 1).last() == s@[i as int]);
        }
        let acc10 = match acc.checked_mul(10) {
            Some(x) => x,
            None => {
                proof {
                    reject_overflow(s@, i as int, acc as int, d as int);
                }
                return None;
            },
        };
        let acc2 = match acc10.checked_add(d) {
            Some(x) => x,
            None => {
                proof {
                    reject_overflow(s@, i as int, acc as int, d as int);
                }
                return None;
            },
        };
        acc = acc2;
        i = i + 1;
    }
    proof {
        assert(s@.take(i as int) =~= s@);
        assert(is_canonical_dec(s@));
        lemma_dec_rep_val_unique(s@, acc);
    }
    Some(acc)
}

/// If the running value overflows a `u64`, no `u64` has this representation.
proof fn reject_overflow(s: Seq<char>, i: int, acc: int, d: int)
    requires
        0 <= i < s.len(),
        forall|j: int| 0 <= j < i ==> is_digit(#[trigger] s[j]),
        is_digit(s[i]),
        acc == digits_val(s.take(i)),
        d == s[i] as u32 - 48,
        acc * 10 + d > u64::MAX,
    ensures
        forall|v: u64| s != dec_rep(v as nat),
{
    assert forall|v: u64| s != dec_rep(v as nat) by {
        if s == dec_rep(v as nat) {
            lemma_dec_rep_ok(v as nat);
            assert(forall|j: int| 0 <= j < s.len() ==> is_digit(#[trigger] s[j]));
            assert forall|j: int| 0 <= j < s.len() implies digits_val(
                #[trigger] s.take(j),
            ) >= 0 by {
                assert(forall|k: int| 0 <= k < s.take(j).len() ==> is_digit(
                    #[trigger] s.take(j)[k],
                ));
                lemma_digits_val_nonneg(s.take(j));
            }
            lemma_digits_val_prefix_le(s, i + 1);
            assert(s.take(i + 1).drop_last() =~= s.take(i));
            assert(s.take(i + 1).last() == s[i]);
            assert(digits_val(s.take(i + 1)) == acc * 10 + d);
            assert(digits_val(s) == v as int);
            assert(v as int > u64::MAX);
        }
    }
}

/// The suffix of every segment file name.
pub open spec fn log_suffix() -> Seq<char> {
    seq!['.', 'l', 'o', 'g']
}

/// The path of the segment file for generation `gen` inside `dir`.
pub fn log_path(dir: &str, gen: u64) -> (r: String)
    ensures
        r@ == dir@ + seq!['/'] + dec_rep(gen as nat) + log_suffix(),
{
    let mut r = String::from_str(dir);
    push_char(&mut r, '/');
    let digits = u64_to_chars(gen);
    let mut i: usize = 0;
    while i < digits.len()
        invariant
            i <= digits@.len(),
            digits@ == dec_rep(gen as nat),
            r@ == dir@ + seq!['/'] + digits@.take(i as int),
        decreases digits@.len() - i,
    {
        push_char(&mut r, digits[i]);
        i = i + 1;
        proof {
            assert(dir@ + seq!['/'] + digits@.take(i - 1) + seq![digits@[i - 1]] =~= dir@
                + seq!['/'] + digits@.take(i as int));
        }
    }
    proof {
        assert(digits@.take(digits@.len() as int) =~= digits@);
    }
    push_char(&mut r, '.');
    push_char(&mut r, 'l');
    push_char(&mut r, 'o');
    push_char(&mut r, 'g');
    proof {
        assert(r@ =~= dir@ + seq!['/'] + dec_rep(gen as nat) + log_suffix());
    }
    r
}

/// Two names built from generations are equal only for equal generations.
proof fn lemma_gen_name_unique(v1: u64, v2: u64)
    requires
        dec_rep(v1 as nat) + log_suffix() == dec_rep(v2 as nat) + log_suffix(),
    ensures
        v1 == v2,
{
    let s1 = dec_rep(v1 as nat);
    let s2 = dec_rep(v2 as nat);
    assert((s1 + log_suffix()).len() == s1.len() + 4);
    assert((s2 + log_suffix()).len() == s2.len() + 4);
    assert(s1.len() == s2.len());
    assert forall|i: int| 0 <= i < s1.len() implies s1[i] == s2[i] by {
        assert((s1 + log_suffix())[i] == s1[i]);
        assert((s2 + log_suffix())[i] == s2[i]);
    }
    assert(s1 =~= s2);
    lemma_dec_rep_ok(v1 as nat);
    lemma_dec_rep_ok(v2 as nat);
}

/// Parses a segment file name of the form `<gen>.log`.
///
/// Returns `Some(v)` exactly when the name is the canonical decimal
/// representation of `v` followed by `.log`.
pub fn parse_gen(name: &str) -> (r: Option<u64>)
    ensures
        match r {
            Some(v) => name@ == dec_rep(v as nat) + log_suffix(),
            None => forall|v: u64| name@ != dec_rep(v as nat) + log_suffix(),
        },
{
    let chars = str_chars(name);
    proof {
        if exists|v: u64| name@ == dec_rep(v as nat) + log_suffix() {
            let v = choose|v: u64| name@ == dec_rep(v as nat) + log_suffix();
            assert(dec_rep(v as nat).len() >= 1);
        }
    }
    if chars.len() < 5 {
        return None;
    }
    let n = chars.len();
    if !(chars[n - 4] == '.' && chars[n - 3] == 'l' && chars[n - 2] == 'o' && chars[n - 1]
        == 'g') {
        proof {
            if exists|v: u64| name@ == dec_rep(v as nat) + log_suffix() {
                let v = choose|v: u64| name@ == dec_rep(v as nat) + log_suffix();
                let d = dec_rep(v as nat);
                assert(name@[d.len() as int] == '.');
                assert(name@[d.len() as int + 1] == 'l');
                assert(name@[d.len() as int + 2] == 'o');
                assert(name@[d.len() as int + 3] == 'g');
                assert(d.len() + 4 == n);
            }
        }
        return None;
    }
    let mut stem: Vec<char> = Vec::new();
    let mut i: usize = 0;
    while i < n - 4
        invariant
            i <= n - 4,
            n == chars@.len(),
            n >= 5,
            stem@ == chars@.take(i as int),
        decreases n - 4 - i,
    {
        stem.push(chars[i]);
        i = i + 1;
        proof {
            assert(stem@ =~= chars@.take(i as int));
        }
    }
    let parsed = parse_u64(&stem);
    proof {
        match parsed {
            Some(v) => {
                assert(name@ =~= dec_rep(v as nat) + log_suffix());
            },
            None => {
                if exists|v: u64| name@ == dec_rep(v as nat) + log_suffix() {
                    let v = choose|v: u64| name@ == dec_rep(v as nat) + log_suffix();
                    let d = dec_rep(v as nat);
                    assert(d.len() + 4 == n);
                    assert(stem@ =~= d);
                }
            },
        }
    }
    parsed
}

/// True when `s` is the segment file name of generation `v`.
pub open spec fn is_gen_name(s: Seq<char>, v: u64) -> bool {
    s == dec_rep(v as nat) + log_suffix()
}

/// What a name contributes to the generation list.
pub open spec fn gen_of_name(s: Seq<char>) -> Option<u64> {
    if exists|v: u64| is_gen_name(s, v) {
        Some(choose|v: u64| is_gen_name(s, v))
    } else {
        None
    }
}

/// The generations named by a list of file names, in file order.
pub open spec fn gens_of(names: Seq<String>) -> Seq<u64>
    decreases names.len(),
{
    if names.len() == 0 {
        Seq::empty()
    } else {
        gens_of(names.drop_last()) + match gen_of_name(names.last()@) {
            Some(v) => seq![v],
            None => Seq::<u64>::empty(),
        }
    }
}

/// Sorts a list of generation numbers ascending.
fn sort_u64(v: &Vec<u64>) -> (r: Vec<u64>)
    ensures
        r@.to_multiset() == v@.to_multiset(),
        forall|i: int, j: int| 0 <= i < j < r@.len() ==> r@[i] <= r@[j],
{
    broadcast use vstd::seq_lib::group_to_multiset_ensures;

    let mut work: Vec<u64> = Vec::new();
    let mut i: usize = 0;
    while i < v.len()
        invariant
            i <= v@.len(),
            work@ == v@.take(i as int),
        decreases v@.len() - i,
    {
        work.push(v[i]);
        i = i + 1;
        proof {
            assert(work@ =~= v@.take(i as int));
        }
    }
    proof {
        assert(work@ =~= v@);
    }
    let mut r: Vec<u64> = Vec::new();
    while work.len() > 0
        invariant
            r@.to_multiset().add(work@.to_multiset()) =~= v@.to_multiset(),
            forall|i: int, j: int| 0 <= i < j < r@.len() ==> r@[i] <= r@[j],
            forall|i: int, j: int|
                0 <= i < r@.len() && 0 <= j < work@.len() ==> r@[i] <= work@[j],
        decreases work@.len(),
    {
        let mut mi: usize = 0;
        let mut k: usize = 1;
        while k < work.len()
            invariant
                mi < k <= work@.len(),
                work@.len() > 0,
                forall|j: int| 0 <= j < k ==> work@[mi as int] <= work@[j],
            decreases work@.len() - k,
        {
            if work[k] < work[mi] {
                mi = k;
            }
            k = k + 1;
        }
        let ghost old_work = work@;
        let ghost old_r = r@;
        let x = work.remove(mi);
        r.push(x);
        proof {
            old_work.to_multiset_ensures();
            old_r.to_multiset_ensures();
            assert(old_work.remove(mi as int).to_multiset() =~= old_work.to_multiset().remove(
                x,
            ));
            assert(old_r.push(x).to_multiset() =~= old_r.to_multiset().insert(x));
            assert(old_work.to_multiset().count(x) >= 1) by {
                assert(old_work[mi as int] == x);
                assert(old_work.contains(x));
            }
            assert(r@.to_multiset().add(work@.to_multiset()) =~= old_r.to_multiset().add(
                old_work.to_multiset(),
            ));
            assert(forall|j: int| 0 <= j < work@.len() ==> x <= work@[j]) by {
                assert(forall|j: int|
                    0 <= j < work@.len() ==> work@[j] == if j < mi {
                        old_work[j]
                    } else {
                        old_work[j + 1]
                    });
            }
        }
    }
    proof {
        assert(work@.to_multiset() =~= Multiset::<u64>::empty()) by {
            assert(work@ =~= Seq::<u64>::empty());
        }
        assert(r@.to_multiset() =~= v@.to_multiset());
    }
    r
}

/// The sorted list of generations named by the given file names.
///
/// Every name of the form `<gen>.log` (canonical decimal) contributes its
/// generation; other names are ignored. The result is sorted ascending.
pub fn sorted_gen_list(names: &Vec<String>) -> (r: Vec<u64>)
    ensures
        r@.to_multiset() == gens_of(names@).to_multiset(),
        forall|i: int, j: int| 0 <= i < j < r@.len() ==> r@[i] <= r@[j],
{
    let mut gens: Vec<u64> = Vec::new();
    let mut i: usize = 0;
    while i < names.len()
        invariant
            i <= names@.len(),
            gens@ == gens_of(names@.take(i as int)),
        decreases names@.len() - i,
    {
        let parsed = parse_gen(names[i].as_str());
        proof {
            assert(names@.take(i + 1).drop_last() =~= names@.take(i as int));
            assert(names@.take(i + 1).last() == names@[i as int]);
        }
        match parsed {
            Some(g) => {
                gens.push(g);
                proof {
                    let s = names@[i as int]@;
                    assert(is_gen_name(s, g));
                    assert(exists|v: u64| is_gen_name(s, v));
                    let v = choose|v: u64| is_gen_name(s, v);
                    lemma_gen_name_unique(v, g);
                    assert(gen_of_name(s) == Some(g));
                    assert(gens@ =~= gens_of(names@.take(i + 1)));
                }
            },
            None => {
                proof {
                    let s = names@[i as int]@;
                    assert(forall|v: u64| !is_gen_name(s, v));
                    assert(gen_of_name(s) is None);
                    assert(gens@ =~= gens_of(names@.take(i + 1)));
                }
            },
        }
        i = i + 1;
    }
    proof {
        assert(names@.take(i as int) =~= names@);
    }
    sort_u64(&gens)
}

/// A canonical digit string whose value is `v` is `dec_rep(v)`.
proof fn lemma_dec_rep_val_unique(s: Seq<char>, v: u64)
    requires
        is_canonical_dec(s),
        digits_val(s) == v as int,
    ensures
        s == dec_rep(v as nat),
    decreases s.len(),
{
    if s.len() == 1 {
        assert(digits_val(s) == digits_val(s.drop_last()) * 10 + (s.last() as u32 - 48));
        assert(s.drop_last() =~= Seq::<char>::empty());
        assert(v < 10);
        assert(dec_rep(v as nat) == seq![digit_char(v as int)]);
        assert(s[0] == s.last());
        assert(s[0] as u32 == 48 + v);
        lemma_digit_char_val(v as int);
        lemma_char_inj(s[0], digit_char(v as int));
        assert(s =~= dec_rep(v as nat));
    } else {
        let p = s.drop_last();
        let dv = s.last() as u32 - 48;
        assert(digits_val(s) == digits_val(p) * 10 + dv);
        assert(forall|j: int| 0 <= j < p.len() ==> is_digit(#[trigger] p[j])) by {
            assert(forall|j: int| 0 <= j < p.len() ==> p[j] == s[j]);
        }
        assert(0 <= dv < 10);
        lemma_digits_val_nonneg(p);
        let pv = digits_val(p);
        assert(pv * 10 + dv == v as int);
        assert(pv <= v as int) by (nonlinear_arith)
            requires pv >= 0, 0 <= dv < 10, pv * 10 + dv == v as int;
        let pv64 = pv as u64;
        assert(p[0] == s[0]);
        assert(is_canonical_dec(p)) by {
            if p.len() == 1 {
            } else {
                assert(p[0] != '0');
            }
        }
        lemma_dec_rep_val_unique(p, pv64);
        assert(pv >= 1) by {
            if pv == 0 {
                assert(v as int == dv);
                lemma_dec_rep_ok(pv64 as nat);
                assert(digits_val(dec_rep(0)) == 0);
                assert(dec_rep(0) == seq![digit_char(0)]);
                assert(p == dec_rep(0));
                assert(p.len() == 1);
                assert(p[0] == digit_char(0));
                lemma_digit_char_val(0);
                assert('0' as u32 == 48);
                lemma_char_inj(digit_char(0), '0');
                assert(s[0] == '0' && s.len() > 1);
            }
        }
        assert(v >= 10) by (nonlinear_arith)
            requires pv >= 1, 0 <= dv, pv * 10 + dv == v as int;
        assert(dec_rep(v as nat) == dec_rep((v as nat) / 10).push(
            digit_char((v as nat % 10) as int),
        ));
        assert((v as nat) / 10 == pv && (v as int) % 10 == dv) by {
            vstd::arithmetic::div_mod::lemma_fundamental_div_mod_converse(
                v as int, 10, pv, dv as int,
            );
        }
        assert(s.last() as u32 == 48 + dv);
        lemma_digit_char_val(dv as int);
        lemma_char_inj(s.last(), digit_char(dv as int));
        assert(s =~= dec_rep(v as nat));
    }
}

} // verus!
