use vstd::prelude::*;
use vstd::string::*;

verus! {

pub open spec fn is_digit(c: char) -> bool {
    '0' <= c && c <= '9'
}

pub open spec fn digit_val(c: char) -> int {
    c as int - '0' as int
}

pub open spec fn digit_char(k: int) -> char
    recommends
        0 <= k <= 9,
{
    (k + '0' as int) as char
}

/// The characters with the Unicode `White_Space` property, the class that
/// `char::is_whitespace` and `str::split_whitespace` use.
pub open spec fn is_ws(c: char) -> bool {
    ||| ('\t' <= c && c <= '\r')
    ||| c == ' '
    ||| c == '\u{85}'
    ||| c == '\u{a0}'
    ||| c == '\u{1680}'
    ||| ('\u{2000}' <= c && c <= '\u{200a}')
    ||| c == '\u{2028}'
    ||| c == '\u{2029}'
    ||| c == '\u{202f}'
    ||| c == '\u{205f}'
    ||| c == '\u{3000}'
}

pub open spec fn flush(cur: Seq<char>) -> Seq<Seq<char>> {
    if cur.len() == 0 {
        seq![]
    } else {
        seq![cur]
    }
}

/// The whitespace-separated words of `s`, continuing a word `cur` already begun.
pub open spec fn words_from(s: Seq<char>, cur: Seq<char>) -> Seq<Seq<char>>
    decreases s.len(),
{
    if s.len() == 0 {
        flush(cur)
    } else if is_ws(s[0]) {
        flush(cur) + words_from(s.drop_first(), seq![])
    } else {
        words_from(s.drop_first(), cur.push(s[0]))
    }
}

/// The maximal runs of non-whitespace characters of `s`, in order.
pub open spec fn words(s: Seq<char>) -> Seq<Seq<char>> {
    words_from(s, seq![])
}

/// A word: not empty, and no whitespace in it.
pub open spec fn is_word(w: Seq<char>) -> bool {
    w.len() > 0 && forall|i: int| 0 <= i < w.len() ==> !is_ws(#[trigger] w[i])
}

/// The words joined with single spaces.
pub open spec fn join(ws: Seq<Seq<char>>) -> Seq<char>
    decreases ws.len(),
{
    if ws.len() == 0 {
        seq![]
    } else if ws.len() == 1 {
        ws[0]
    } else {
        join(ws.drop_last()) + seq![' '] + ws.last()
    }
}

/// Decimal digits of a natural number, without leading zeros.
pub open spec fn nat_text(n: nat) -> Seq<char>
    decreases n,
{
    if n < 10 {
        seq![digit_char(n as int)]
    } else {
        nat_text(n / 10).push(digit_char((n % 10) as int))
    }
}

/// Decimal text of an integer, with `-` before a negative one.
pub open spec fn int_text(i: int) -> Seq<char> {
    if i < 0 {
        seq!['-'] + nat_text((-i) as nat)
    } else {
        nat_text(i as nat)
    }
}

pub open spec fn digits_value(s: Seq<char>) -> int
    decreases s.len(),
{
    if s.len() == 0 {
        0
    } else {
        digits_value(s.drop_last()) * 10 + digit_val(s.last())
    }
}

pub open spec fn all_digits(s: Seq<char>) -> bool {
    forall|i: int| 0 <= i < s.len() ==> is_digit(#[trigger] s[i])
}

/// The `i32` that `s` spells: an optional `+` or `-`, then one or more decimal
/// digits, with a value in range.
pub open spec fn int_of(s: Seq<char>) -> Option<int> {
    let signed = s.len() > 0 && (s[0] == '-' || s[0] == '+');
    let body = if signed {
        s.skip(1)
    } else {
        s
    };
    let mag = digits_value(body);
    let v = if s.len() > 0 && s[0] == '-' {
        -mag
    } else {
        mag
    };
    if body.len() > 0 && all_digits(body) && i32::MIN <= v <= i32::MAX {
        Some(v)
    } else {
        None
    }
}

pub fn is_ws_exec(c: char) -> (r: bool)
    ensures
        r == is_ws(c),
{
    ('\t' <= c && c <= '\r') || c == ' ' || c == '\u{85}' || c == '\u{a0}' || c == '\u{1680}' || (
    '\u{2000}' <= c && c <= '\u{200a}') || c == '\u{2028}' || c == '\u{2029}' || c == '\u{202f}'
        || c == '\u{205f}' || c == '\u{3000}'
}

pub fn digit_to_char(k: u64) -> (c: char)
    requires
        k <= 9,
    ensures
        c == digit_char(k as int),
        is_digit(c),
        digit_val(c) == k,
{
    ((k as u32) + 48) as u8 as char
}

pub fn char_digit(c: char) -> (r: Option<u8>)
    ensures
        r is Some <==> is_digit(c),
        r matches Some(d) ==> d as int == digit_val(c) && d <= 9,
{
    if '0' <= c && c <= '9' {
        Some(((c as u32) - 48) as u8)
    } else {
        None
    }
}

/// The characters of `s`.
pub fn chars_of(s: &str) -> (r: Vec<char>)
    ensures
        r@ == s@,
{
    let n = s.unicode_len();
    let mut v: Vec<char> = Vec::new();
    let mut i: usize = 0;
    while i < n
        invariant
            n == s@.len(),
            i <= n,
            v@ == s@.take(i as int),
        decreases n - i,
    {
        v.push(s.get_char(i));
        i += 1;
        assert(v@ =~= s@.take(i as int));
    }
    assert(v@ =~= s@);
    v
}

/// Relies on `String::push`: appends one character.
#[verifier::external_body]
fn push_char(s: &mut String, c: char)
    ensures
        final(s)@ == old(s)@.push(c),
{
    s.push(c);
}

/// A string of the characters `cs`.
pub fn string_of(cs: &Vec<char>) -> (r: String)
    ensures
        r@ == cs@,
{
    let mut s = String::new();
    let mut i: usize = 0;
    while i < cs.len()
        invariant
            i <= cs@.len(),
            s@ == cs@.take(i as int),
        decreases cs.len() - i,
    {
        push_char(&mut s, cs[i]);
        i += 1;
        assert(s@ =~= cs@.take(i as int));
    }
    assert(s@ =~= cs@);
    s
}

/// The words of `cs` from position `from` on.
pub fn split_words(cs: &Vec<char>, from: usize) -> (r: Vec<Vec<char>>)
    requires
        from <= cs@.len(),
    ensures
        r.deep_view() == words(cs@.skip(from as int)),
{
    let mut out: Vec<Vec<char>> = Vec::new();
    let mut cur: Vec<char> = Vec::new();
    let mut i: usize = from;
    assert(cs@.skip(from as int).skip(0) =~= cs@.skip(from as int));
    while i < cs.len()
        invariant
            from <= i <= cs@.len(),
            words(cs@.skip(from as int)) == out.deep_view() + words_from(
                cs@.skip(i as int),
                cur@,
            ),
        decreases cs.len() - i,
    {
        let c = cs[i];
        let ghost rest = cs@.skip(i as int);
        assert(rest[0] == c);
        assert(rest.drop_first() =~= cs@.skip(i + 1));
        if is_ws_exec(c) {
            if cur.len() > 0 {
                let ghost old_out = out.deep_view();
                let ghost cv = cur@;
                assert(cur.deep_view() =~= cv);
                out.push(cur);
                assert(out.deep_view() =~~= old_out + flush(cv));
            } else {
                assert(flush(cur@) =~= seq![]);
            }
            cur = Vec::new();
            assert(cur@ =~= seq![]);
            assert(flush(rest.take(0)) =~= seq![]);
            assert(out.deep_view() + words_from(cs@.skip(i + 1), cur@) =~= words(
                cs@.skip(from as int),
            ));
        } else {
            cur.push(c);
        }
        i += 1;
    }
    assert(cs@.skip(i as int) =~= seq![]);
    if cur.len() > 0 {
        let ghost old_out = out.deep_view();
        let ghost cv = cur@;
        assert(cur.deep_view() =~= cv);
        out.push(cur);
        assert(out.deep_view() =~~= old_out + flush(cv));
    } else {
        assert(out.deep_view() + flush(cur@) =~= out.deep_view());
    }
    out
}

/// The words joined with single spaces.
pub fn join_words(ws: &Vec<Vec<char>>) -> (r: Vec<char>)
    ensures
        r@ == join(ws.deep_view()),
{
    let mut out: Vec<char> = Vec::new();
    let mut i: usize = 0;
    while i < ws.len()
        invariant
            i <= ws@.len(),
            out@ == join(ws.deep_view().take(i as int)),
        decreases ws.len() - i,
    {
        let ghost pre = ws.deep_view().take(i as int);
        let ghost next = ws.deep_view().take(i + 1);
        assert(next.drop_last() =~= pre);
        if i > 0 {
            out.push(' ');
        }
        let w = &ws[i];
        let mut j: usize = 0;
        let ghost base = out@;
        while j < w.len()
            invariant
                j <= w@.len(),
                out@ == base + w@.take(j as int),
            decreases w.len() - j,
        {
            out.push(w[j]);
            j += 1;
            assert(out@ =~= base + w@.take(j as int));
        }
        assert(w@.take(j as int) =~= w@);
        i += 1;
        assert(out@ =~= join(next));
    }
    assert(ws.deep_view().take(i as int) =~= ws.deep_view());
    out
}

/// Appends the decimal digits of `n`.
pub fn push_nat_text(n: u64, out: &mut Vec<char>)
    ensures
        final(out)@ == old(out)@ + nat_text(n as nat),
    decreases n,
{
    if n < 10 {
        out.push(digit_to_char(n));
    } else {
        push_nat_text(n / 10, out);
        out.push(digit_to_char(n % 10));
        assert(final(out)@ =~= old(out)@ + nat_text(n as nat));
    }
}

/// Appends the decimal text of `i`.
pub fn push_int_text(i: i32, out: &mut Vec<char>)
    ensures
        final(out)@ == old(out)@ + int_text(i as int),
{
    if i < 0 {
        out.push('-');
        let m = (-(i as i64)) as u64;
        push_nat_text(m, out);
        assert(final(out)@ =~= old(out)@ + int_text(i as int));
    } else {
        push_nat_text(i as u64, out);
    }
}

proof fn lemma_digits_value_nonneg(s: Seq<char>)
    requires
        all_digits(s),
    ensures
        digits_value(s) >= 0,
    decreases s.len(),
{
    if s.len() > 0 {
        assert(is_digit(s[s.len() - 1]));
        lemma_digits_value_nonneg(s.drop_last());
    }
}

/// Reads the `i32` that `cs` spells from position `from` on.
pub fn parse_int(cs: &Vec<char>, from: usize) -> (r: Option<i32>)
    requires
        from <= cs@.len(),
    ensures
        match r {
            Some(v) => int_of(cs@.skip(from as int)) == Some(v as int),
            None => int_of(cs@.skip(from as int)) is None,
        },
{
    let ghost s = cs@.skip(from as int);
    let n = cs.len();
    let mut start = from;
    let mut neg = false;
    if from < n && (cs[from] == '-' || cs[from] == '+') {
        neg = cs[from] == '-';
        start = from + 1;
    }
    let ghost body = cs@.skip(start as int);
    assert(s.len() > 0 && (s[0] == '-' || s[0] == '+') ==> body =~= s.skip(1));
    assert(!(s.len() > 0 && (s[0] == '-' || s[0] == '+')) ==> body =~= s);
    assert(neg <==> (s.len() > 0 && s[0] == '-'));
    if start == n {
        return None;
    }
    let lim: i64 = 2147483648;
    assert(lim == 2147483648);
    let mut v: i64 = 0;
    let mut k: usize = start;
    while k < n
        invariant
            start <= k <= n,
            n == cs@.len(),
            lim == 2147483648,
            s == cs@.skip(from as int),
            s.len() > 0 && (s[0] == '-' || s[0] == '+') ==> body == s.skip(1),
            !(s.len() > 0 && (s[0] == '-' || s[0] == '+')) ==> body == s,
            body == cs@.skip(start as int),
            all_digits(body.take(k - start)),
            0 <= v <= lim + 1,
            v <= lim ==> v == digits_value(body.take(k - start)),
            v > lim ==> digits_value(body.take(k - start)) > lim,
        decreases n - k,
    {
        let ghost pre = body.take(k - start);
        let ghost next = body.take(k + 1 - start);
        assert(next.drop_last() =~= pre);
        assert(next.last() == cs@[k as int]);
        match char_digit(cs[k]) {
            None => {
                assert(!is_digit(body[k - start]));
                assert(!all_digits(body));
                return None;
            },
            Some(d) => {
                proof {
                    lemma_digits_value_nonneg(pre);
                }
                if v <= lim {
                    v = v * 10 + d as i64;
                    if v > lim {
                        v = lim + 1;
                    }
                }
                assert(all_digits(next)) by {
                    assert forall|j: int| 0 <= j < next.len() implies is_digit(next[j]) by {
                        if j < pre.len() {
                            assert(next[j] == pre[j]);
                        }
                    }
                }
            },
        }
        k += 1;
    }
    assert(body.take(n - start) =~= body);
    if neg {
        if v > lim {
            None
        } else {
            Some((-v) as i32)
        }
    } else {
        if v > lim - 1 {
            None
        } else {
            Some(v as i32)
        }
    }
}

/// Splitting at a whitespace boundary splits the words.
pub proof fn lemma_words_concat(x: Seq<char>, y: Seq<char>, cur: Seq<char>)
    requires
        y.len() == 0 || is_ws(y[0]),
    ensures
        words_from(x + y, cur) == words_from(x, cur) + words(y),
    decreases x.len(),
{
    if x.len() == 0 {
        assert(x + y =~= y);
        if y.len() == 0 {
            assert(words_from(y, cur) =~= flush(cur) + words(y));
        } else {
            assert(words(y) == flush(seq![]) + words_from(y.drop_first(), seq![]));
            assert(flush(Seq::<char>::empty()) =~= seq![]);
            assert(words_from(y, cur) =~= flush(cur) + words(y));
        }
    } else {
        assert((x + y).drop_first() =~= x.drop_first() + y);
        assert((x + y)[0] == x[0]);
        if is_ws(x[0]) {
            lemma_words_concat(x.drop_first(), y, seq![]);
            assert(words_from(x + y, cur) =~= words_from(x, cur) + words(y));
        } else {
            lemma_words_concat(x.drop_first(), y, cur.push(x[0]));
        }
    }
}

/// A run of non-whitespace characters continues the current word.
pub proof fn lemma_words_of_word(w: Seq<char>, cur: Seq<char>)
    requires
        forall|i: int| 0 <= i < w.len() ==> !is_ws(#[trigger] w[i]),
    ensures
        words_from(w, cur) == flush(cur + w),
    decreases w.len(),
{
    if w.len() == 0 {
        assert(cur + w =~= cur);
    } else {
        assert(!is_ws(w[0]));
        assert forall|i: int| 0 <= i < w.drop_first().len() implies !is_ws(
            #[trigger] w.drop_first()[i],
        ) by {
            assert(w.drop_first()[i] == w[i + 1]);
        }
        lemma_words_of_word(w.drop_first(), cur.push(w[0]));
        assert(cur.push(w[0]) + w.drop_first() =~= cur + w);
    }
}

/// A space, then a word: that word alone.
pub proof fn lemma_words_space_word(w: Seq<char>)
    requires
        is_word(w),
    ensures
        words(seq![' '] + w) == seq![w],
{
    let s = seq![' '] + w;
    assert(s[0] == ' ');
    assert(s.drop_first() =~= w);
    lemma_words_of_word(w, seq![]);
    assert(Seq::<char>::empty() + w =~= w);
    assert(flush(Seq::<char>::empty()) =~= seq![]);
    assert(words(s) =~= seq![w]);
}

/// A space, then words joined by spaces: those words.
pub proof fn lemma_words_join(ws: Seq<Seq<char>>)
    requires
        forall|i: int| 0 <= i < ws.len() ==> is_word(#[trigger] ws[i]),
    ensures
        words(seq![' '] + join(ws)) == ws,
    decreases ws.len(),
{
    if ws.len() == 0 {
        let s = seq![' '] + join(ws);
        assert(s =~= seq![' ']);
        assert(s.drop_first() =~= Seq::<char>::empty());
        assert(flush(Seq::<char>::empty()) =~= seq![]);
        assert(words_from(Seq::<char>::empty(), seq![]) =~= seq![]);
        assert(is_ws(s[0]));
        assert(words(s) =~= ws);
    } else if ws.len() == 1 {
        lemma_words_space_word(ws[0]);
        assert(seq![ws[0]] =~= ws);
    } else {
        let init = ws.drop_last();
        assert forall|i: int| 0 <= i < init.len() implies is_word(#[trigger] init[i]) by {
            assert(init[i] == ws[i]);
        }
        lemma_words_join(init);
        assert(is_word(ws[ws.len() - 1]));
        lemma_words_space_word(ws.last());
        let x = seq![' '] + join(init);
        let y = seq![' '] + ws.last();
        assert(seq![' '] + join(ws) =~= x + y);
        lemma_words_concat(x, y, seq![]);
        assert(init + seq![ws.last()] =~= ws);
    }
}

/// A digit character is a digit, of its value.
pub proof fn lemma_digit_char(k: int)
    requires
        0 <= k <= 9,
    ensures
        is_digit(digit_char(k)),
        digit_val(digit_char(k)) == k,
{
    let c = digit_char(k);
    assert(c as int == k + 48);
}

/// Decimal digits are digits, and spell their value.
pub proof fn lemma_nat_text(n: nat)
    ensures
        nat_text(n).len() > 0,
        all_digits(nat_text(n)),
        digits_value(nat_text(n)) == n,
    decreases n,
{
    if n < 10 {
        lemma_digit_char(n as int);
        let t = nat_text(n);
        assert(t.drop_last() =~= Seq::<char>::empty());
        assert(digits_value(t) == digits_value(t.drop_last()) * 10 + digit_val(t.last()));
    } else {
        lemma_digit_char((n % 10) as int);
        lemma_nat_text(n / 10);
        let t = nat_text(n);
        assert(t.drop_last() =~= nat_text(n / 10));
        assert(digits_value(t) == digits_value(t.drop_last()) * 10 + digit_val(t.last()));
        assert(n == (n / 10) * 10 + n % 10);
        assert(all_digits(t)) by {
            assert forall|i: int| 0 <= i < t.len() implies is_digit(#[trigger] t[i]) by {
                if i < t.len() - 1 {
                    assert(t[i] == nat_text(n / 10)[i]);
                }
            }
        }
    }
}

/// The decimal text of an `i32` reads back as that number.
pub proof fn lemma_int_text_round_trip(i: int)
    requires
        i32::MIN <= i <= i32::MAX,
    ensures
        int_of(int_text(i)) == Some(i),
        is_word(int_text(i)),
{
    if i < 0 {
        let m = (-i) as nat;
        lemma_nat_text(m);
        let s = int_text(i);
        assert(s.skip(1) =~= nat_text(m));
        assert(is_word(s)) by {
            assert forall|j: int| 0 <= j < s.len() implies !is_ws(#[trigger] s[j]) by {
                if j > 0 {
                    assert(s[j] == nat_text(m)[j - 1]);
                    assert(is_digit(nat_text(m)[j - 1]));
                }
            }
        }
    } else {
        lemma_nat_text(i as nat);
        let s = int_text(i);
        assert(is_digit(s[0]));
        assert(is_word(s)) by {
            assert forall|j: int| 0 <= j < s.len() implies !is_ws(#[trigger] s[j]) by {
                assert(is_digit(s[j]));
            }
        }
    }
}

} // verus!
