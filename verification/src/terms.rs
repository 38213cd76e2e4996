use vstd::prelude::*;

use crate::order::{insert_sorted_unique, strictly_sorted, string_views};
use crate::text::{char_is_whitespace, push_char, unicode_white_space};

verus! {

/// `c` with ASCII upper case letters made lower case.
pub open spec fn ascii_lower(c: char) -> char {
    if 'A' <= c && c <= 'Z' {
        ((c as u32) + 32) as char
    } else {
        c
    }
}

/// `s` without its leading white space.
pub open spec fn trim_start(s: Seq<char>) -> Seq<char>
    decreases s.len(),
{
    if s.len() > 0 && unicode_white_space(s[0]) {
        trim_start(s.skip(1))
    } else {
        s
    }
}

/// `s` without its trailing white space.
pub open spec fn trim_end(s: Seq<char>) -> Seq<char>
    decreases s.len(),
{
    if s.len() > 0 && unicode_white_space(s.last()) {
        trim_end(s.drop_last())
    } else {
        s
    }
}

/// `s` without leading and trailing white space, as `str::trim` gives it.
pub open spec fn trimmed(s: Seq<char>) -> Seq<char> {
    trim_end(trim_start(s))
}

/// A search term: trimmed, with ASCII letters in lower case.
pub open spec fn normalized(s: Seq<char>) -> Seq<char> {
    trimmed(s).map_values(|c: char| ascii_lower(c))
}

/// `c` with an ASCII upper case letter made lower case.
pub fn to_ascii_lower(c: char) -> (d: char)
    ensures
        d == ascii_lower(c),
{
    if 'A' <= c && c <= 'Z' {
        ((c as u32) + 32) as u8 as char
    } else {
        c
    }
}

proof fn lemma_trim_start_skip(s: Seq<char>, i: int)
    requires
        0 <= i <= s.len(),
        forall|j: int| 0 <= j < i ==> unicode_white_space(#[trigger] s[j]),
    ensures
        trim_start(s) == trim_start(s.skip(i)),
    decreases i,
{
    if i > 0 {
        assert(s.skip(1).skip(i - 1) =~= s.skip(i));
        assert forall|j: int| 0 <= j < i - 1 implies unicode_white_space(#[trigger] s.skip(1)[j]) by {
            assert(s.skip(1)[j] == s[j + 1]);
        }
        lemma_trim_start_skip(s.skip(1), i - 1);
    } else {
        assert(s.skip(0) =~= s);
    }
}

proof fn lemma_trim_end_take(s: Seq<char>, k: int)
    requires
        0 <= k <= s.len(),
        forall|j: int| k <= j < s.len() ==> unicode_white_space(#[trigger] s[j]),
    ensures
        trim_end(s) == trim_end(s.take(k)),
    decreases s.len() - k,
{
    if k < s.len() {
        assert(s.drop_last().take(k) =~= s.take(k));
        lemma_trim_end_take(s.drop_last(), k);
    } else {
        assert(s.take(k) =~= s);
    }
}

/// `value` without leading and trailing white space.
pub fn trim_text(value: &str) -> (s: String)
    ensures
        s@ == trimmed(value@),
{
    let n = value.unicode_len();
    let mut start: usize = 0;
    while start < n && char_is_whitespace(value.get_char(start))
        invariant
            n == value@.len(),
            start <= n,
            forall|j: int| 0 <= j < start ==> unicode_white_space(#[trigger] value@[j]),
        decreases n - start,
    {
        start = start + 1;
    }
    let ghost rest = value@.skip(start as int);
    proof {
        lemma_trim_start_skip(value@, start as int);
        if start < n {
            assert(!unicode_white_space(value@[start as int]));
            assert(rest[0] == value@[start as int]);
        }
        assert(trim_start(value@) == rest);
    }
    let mut end: usize = n;
    while end > start && char_is_whitespace(value.get_char(end - 1))
        invariant
            n == value@.len(),
            start <= end <= n,
            rest == value@.skip(start as int),
            forall|j: int| end <= j < n ==> unicode_white_space(#[trigger] value@[j]),
        decreases end - start,
    {
        end = end - 1;
    }
    proof {
        let k = end - start;
        assert forall|j: int| k <= j < rest.len() implies unicode_white_space(#[trigger] rest[j]) by {
            assert(rest[j] == value@[j + start]);
        }
        lemma_trim_end_take(rest, k as int);
        let t = rest.take(k as int);
        if k > 0 {
            assert(t.last() == value@[end - 1]);
        }
        assert(trim_end(t) == t);
    }
    let ghost t = rest.take((end - start) as int);
    let mut out = String::new();
    let mut i: usize = start;
    while i < end
        invariant
            n == value@.len(),
            start <= i <= end <= n,
            t == value@.skip(start as int).take((end - start) as int),
            out@ == t.take((i - start) as int),
        decreases end - i,
    {
        let c = value.get_char(i);
        push_char(&mut out, c);
        proof {
            assert(t[(i - start) as int] == c);
            assert(t.take((i - start) as int + 1) =~= t.take((i - start) as int).push(c));
        }
        i = i + 1;
    }
    proof {
        assert(t.take((end - start) as int) =~= t);
    }
    out
}

/// `s` trimmed, with ASCII letters in lower case.
pub fn normalize(value: &str) -> (s: String)
    ensures
        s@ == normalized(value@),
{
    let t = trim_text(value);
    let n = t.unicode_len();
    let mut out = String::new();
    let mut i: usize = 0;
    while i < n
        invariant
            n == t@.len(),
            i <= n,
            out@ == t@.take(i as int).map_values(|c: char| ascii_lower(c)),
        decreases n - i,
    {
        let c = t.get_char(i);
        push_char(&mut out, to_ascii_lower(c));
        proof {
            assert(t@.take(i as int + 1).map_values(|c: char| ascii_lower(c)) =~= t@.take(i as int).map_values(
                |c: char| ascii_lower(c),
            ).push(ascii_lower(c)));
        }
        i = i + 1;
    }
    proof {
        assert(t@.take(n as int) =~= t@);
    }
    out
}

/// `str::to_lowercase` of `s`.
pub uninterp spec fn unicode_lowercase(s: Seq<char>) -> Seq<char>;

/// `str::to_lowercase`: `s` with every character mapped to its Unicode
/// lower case. Stated through `unicode_lowercase`.
#[verifier::external_body]
pub fn to_lowercase(s: &str) -> (r: String)
    ensures
        r@ == unicode_lowercase(s@),
{
    s.to_lowercase()
}

/// A term of metadata and of the dictionary: trimmed, then in Unicode
/// lower case.
pub open spec fn lower_normalized(s: Seq<char>) -> Seq<char> {
    unicode_lowercase(trimmed(s))
}

/// `value` trimmed, then in Unicode lower case.
pub fn normalize_lower(value: &str) -> (s: String)
    ensures
        s@ == lower_normalized(value@),
{
    let t = trim_text(value);
    to_lowercase(t.as_str())
}


/// Whether `c` is alphabetic or numeric in Unicode, as
/// `char::is_alphanumeric` tells.
pub uninterp spec fn unicode_alphanumeric(c: char) -> bool;

/// Whether `c` has the Unicode `Alphabetic` property, as
/// `char::is_alphabetic` tells.
pub uninterp spec fn unicode_alphabetic(c: char) -> bool;

/// `char::is_alphanumeric`: whether `c` is alphabetic or numeric in
/// Unicode. Stated through `unicode_alphanumeric`.
#[verifier::external_body]
pub fn char_is_alphanumeric(c: char) -> (b: bool)
    ensures
        b == unicode_alphanumeric(c),
{
    c.is_alphanumeric()
}

/// `char::is_alphabetic`: whether `c` has the Unicode `Alphabetic`
/// property. Stated through `unicode_alphabetic`.
#[verifier::external_body]
pub fn char_is_alphabetic(c: char) -> (b: bool)
    ensures
        b == unicode_alphabetic(c),
{
    c.is_alphabetic()
}

/// The tokenizer state after `s`: the finished tokens and the token being
/// read.
pub open spec fn token_state(s: Seq<char>) -> (Seq<Seq<char>>, Seq<char>)
    decreases s.len(),
{
    if s.len() == 0 {
        (Seq::empty(), Seq::empty())
    } else {
        let (toks, cur) = token_state(s.drop_last());
        let c = s.last();
        if unicode_alphanumeric(c) {
            (toks, cur.push(c))
        } else if cur.len() > 0 {
            (toks.push(cur), Seq::empty())
        } else {
            (toks, Seq::empty())
        }
    }
}

/// The maximal runs of alphanumeric characters of `s`, in order: its
/// pieces between other characters, without the empty ones.
pub open spec fn tokens(s: Seq<char>) -> Seq<Seq<char>> {
    let (toks, cur) = token_state(s);
    if cur.len() > 0 {
        toks.push(cur)
    } else {
        toks
    }
}

/// The tokens of `value`.
pub fn tokenize(value: &str) -> (v: Vec<String>)
    ensures
        string_views(v@) == tokens(value@),
{
    let n = value.unicode_len();
    let mut toks: Vec<String> = Vec::new();
    let mut cur = String::new();
    let mut i: usize = 0;
    proof {
        assert(value@.take(0) =~= Seq::<char>::empty());
        assert(string_views(toks@) =~= Seq::<Seq<char>>::empty());
    }
    while i < n
        invariant
            n == value@.len(),
            i <= n,
            token_state(value@.take(i as int)) == (string_views(toks@), cur@),
        decreases n - i,
    {
        let c = value.get_char(i);
        proof {
            assert(value@.take(i as int + 1).drop_last() =~= value@.take(i as int));
            assert(value@.take(i as int + 1).last() == c);
        }
        if char_is_alphanumeric(c) {
            push_char(&mut cur, c);
        } else if cur.unicode_len() > 0 {
            let done = cur;
            cur = String::new();
            let ghost before = string_views(toks@);
            toks.push(done);
            proof {
                assert(string_views(toks@) =~= before.push(done@));
            }
        } else {
            cur = String::new();
        }
        i = i + 1;
    }
    proof {
        assert(value@.take(n as int) =~= value@);
    }
    if cur.unicode_len() > 0 {
        let ghost before = string_views(toks@);
        toks.push(cur);
        proof {
            assert(string_views(toks@) =~= before.push(cur@));
        }
    }
    toks
}

/// The longest prefix a prefix archive keeps, in characters.
pub open spec fn prefix_max_len() -> nat {
    32
}

/// The prefixes of a token that a prefix archive indexes: of one character
/// up to the whole token or the longest kept prefix.
pub open spec fn token_prefix_list(t: Seq<char>) -> Seq<Seq<char>> {
    let n = if t.len() < prefix_max_len() {
        t.len()
    } else {
        prefix_max_len()
    };
    Seq::new(n, |k: int| t.take(k + 1))
}

/// The prefixes that a prefix archive indexes for `term`.
pub fn token_prefixes(term: &str) -> (v: Vec<String>)
    ensures
        string_views(v@) == token_prefix_list(term@),
{
    let n = term.unicode_len();
    let limit: usize = if n < 32 {
        n
    } else {
        32
    };
    let mut v: Vec<String> = Vec::new();
    let mut cur = String::new();
    let mut k: usize = 0;
    while k < limit
        invariant
            n == term@.len(),
            limit <= n,
            limit == (if n < 32 { n } else { 32 }),
            k <= limit,
            cur@ == term@.take(k as int),
            string_views(v@) == Seq::new(k as nat, |j: int| term@.take(j + 1)),
        decreases limit - k,
    {
        push_char(&mut cur, term.get_char(k));
        proof {
            assert(cur@ =~= term@.take(k as int + 1));
        }
        let ghost before = string_views(v@);
        let copy = cur.clone();
        v.push(copy);
        proof {
            assert(string_views(v@) =~= before.push(copy@));
            assert(copy@ == term@.take(k as int + 1));
            assert(string_views(v@) =~= Seq::new((k + 1) as nat, |j: int| term@.take(j + 1)));
        }
        k = k + 1;
    }
    v
}

/// The number of characters of a substring gram.
pub open spec fn gram_chars() -> nat {
    3
}

/// The windows of three characters of `s`, in order.
pub open spec fn gram_windows(s: Seq<char>) -> Seq<Seq<char>> {
    if s.len() < 3 {
        Seq::empty()
    } else {
        Seq::new((s.len() - 2) as nat, |i: int| s.subrange(i, i + 3))
    }
}

/// The grams of `value`: its windows of three characters, sorted and
/// without duplicates.
pub fn substring_grams(value: &str) -> (v: Vec<String>)
    ensures
        strictly_sorted(string_views(v@)),
        string_views(v@).to_set() == gram_windows(value@).to_set(),
{
    let n = value.unicode_len();
    let mut v: Vec<String> = Vec::new();
    proof {
        assert(string_views(v@).to_set() =~= Set::<Seq<char>>::empty());
    }
    if n < 3 {
        proof {
            assert(gram_windows(value@).to_set() =~= Set::<Seq<char>>::empty());
        }
        return v;
    }
    let ghost w = gram_windows(value@);
    let mut i: usize = 0;
    proof {
        assert(w.take(0).to_set() =~= Set::<Seq<char>>::empty());
    }
    while i < n - 2
        invariant
            n == value@.len(),
            n >= 3,
            w == gram_windows(value@),
            i <= n - 2,
            strictly_sorted(string_views(v@)),
            string_views(v@).to_set() == w.take(i as int).to_set(),
        decreases n - i,
    {
        let mut g = String::new();
        push_char(&mut g, value.get_char(i));
        push_char(&mut g, value.get_char(i + 1));
        push_char(&mut g, value.get_char(i + 2));
        proof {
            assert(g@ =~= value@.subrange(i as int, i as int + 3));
            assert(w[i as int] == g@);
            assert(w.take(i as int + 1) =~= w.take(i as int).push(g@));
            assert(w.take(i as int + 1).to_set() =~= w.take(i as int).to_set().insert(g@)) by {
                lemma_push_to_set(w.take(i as int), g@);
            }
        }
        insert_sorted_unique(&mut v, g);
        i = i + 1;
    }
    proof {
        assert(w.take(i as int) =~= w);
    }
    v
}

/// The set of a sequence with one more element.
pub proof fn lemma_push_to_set(s: Seq<Seq<char>>, x: Seq<char>)
    ensures
        s.push(x).to_set() == s.to_set().insert(x),
{
    assert forall|y: Seq<char>| s.push(x).to_set().contains(y) <==> s.to_set().insert(x).contains(y) by {
        if s.push(x).to_set().contains(y) {
            let i = choose|i: int| 0 <= i < s.push(x).len() && #[trigger] s.push(x)[i] == y;
            if i < s.len() {
                assert(s[i] == y);
            }
        }
        if s.to_set().contains(y) {
            let i = choose|i: int| 0 <= i < s.len() && #[trigger] s[i] == y;
            assert(s.push(x)[i] == y);
        }
        if y == x {
            assert(s.push(x)[s.len() as int] == y);
        }
    }
    assert(s.push(x).to_set() =~= s.to_set().insert(x));
}

/// Whether `s` has exactly three characters.
pub fn is_substring_gram(value: &str) -> (b: bool)
    ensures
        b == (value@.len() == gram_chars()),
{
    value.unicode_len() == 3
}

/// Whether `c` is an ASCII digit.
pub open spec fn is_ascii_digit(c: char) -> bool {
    '0' <= c && c <= '9'
}

/// A character that extends a run of digits: an ASCII digit (that is not
/// alphabetic).
pub open spec fn run_digit(c: char) -> bool {
    is_ascii_digit(c) && !unicode_alphabetic(c)
}

/// Whether the five characters of `t` from `i` on extend a run of digits.
pub open spec fn digit_run_at(t: Seq<char>, i: int) -> bool {
    forall|k: int| i <= k < i + 5 ==> run_digit(#[trigger] t[k])
}

/// Whether `t` holds five ASCII digits in a row.
pub open spec fn has_long_digit_run(t: Seq<char>) -> bool {
    exists|i: int| 0 <= i && i + 5 <= t.len() && #[trigger] digit_run_at(t, i)
}

/// The number of digits that end `t`.
pub open spec fn trailing_digits(t: Seq<char>) -> nat
    decreases t.len(),
{
    if t.len() > 0 && run_digit(t.last()) {
        trailing_digits(t.drop_last()) + 1
    } else {
        0
    }
}

/// The shortest term the fuzzy archive keeps, in characters.
pub open spec fn fuzzy_min_len() -> nat {
    2
}

/// The longest term the fuzzy archive keeps, in characters.
pub open spec fn fuzzy_max_len() -> nat {
    32
}

/// A term the fuzzy archive indexes: of two to 32 characters, with a
/// letter, and without five ASCII digits in a row.
pub open spec fn fuzzy_term(t: Seq<char>) -> bool {
    &&& fuzzy_min_len() <= t.len() <= fuzzy_max_len()
    &&& exists|i: int| 0 <= i < t.len() && unicode_alphabetic(#[trigger] t[i])
    &&& !has_long_digit_run(t)
}

proof fn lemma_trailing_digits_run(t: Seq<char>)
    ensures
        trailing_digits(t) <= t.len(),
        forall|k: int|
            t.len() - trailing_digits(t) <= k < t.len() ==> run_digit(#[trigger] t[k]),
        trailing_digits(t) < t.len() ==> !run_digit(t[t.len() - trailing_digits(t) - 1]),
    decreases t.len(),
{
    if t.len() > 0 && run_digit(t.last()) {
        lemma_trailing_digits_run(t.drop_last());
        assert forall|k: int|
            t.len() - trailing_digits(t) <= k < t.len() implies run_digit(#[trigger] t[k]) by {
            if k < t.len() - 1 {
                assert(t[k] == t.drop_last()[k]);
            }
        }
        if trailing_digits(t) < t.len() {
            assert(t[t.len() - trailing_digits(t) - 1] == t.drop_last()[t.drop_last().len()
                - trailing_digits(t.drop_last()) - 1]);
        }
    }
}

/// Whether `term` is a term the fuzzy archive indexes.
pub fn is_fuzzy_term(term: &str) -> (b: bool)
    ensures
        b == fuzzy_term(term@),
{
    let n = term.unicode_len();
    let mut has_alpha = false;
    let mut run: usize = 0;
    let mut i: usize = 0;
    while i < n
        invariant
            n == term@.len(),
            i <= n,
            run == trailing_digits(term@.take(i as int)),
            run <= 4,
            has_alpha == exists|j: int| 0 <= j < i && unicode_alphabetic(#[trigger] term@[j]),
            !has_long_digit_run(term@.take(i as int)),
        decreases n - i,
    {
        let c = term.get_char(i);
        let ghost before = term@.take(i as int);
        let ghost after = term@.take(i as int + 1);
        proof {
            assert(after.drop_last() =~= before);
            assert(after.last() == c);
        }
        if char_is_alphabetic(c) {
            has_alpha = true;
            run = 0;
        } else if '0' <= c && c <= '9' {
            run = run + 1;
            if run > 4 {
                proof {
                    lemma_trailing_digits_run(after);
                    let start = after.len() - 5;
                    assert forall|k: int| start <= k < start + 5 implies run_digit(#[trigger] term@[k]) by {
                        assert(term@[k] == after[k]);
                    }
                    assert(digit_run_at(term@, start));
                    assert(has_long_digit_run(term@));
                }
                return false;
            }
        } else {
            run = 0;
        }
        proof {
            if unicode_alphabetic(c) {
                assert(has_alpha);
                assert(unicode_alphabetic(term@[i as int]));
            }
            lemma_trailing_digits_run(after);
            assert(!has_long_digit_run(after)) by {
                if has_long_digit_run(after) {
                    let s = choose|s: int| 0 <= s && s + 5 <= after.len() && #[trigger] digit_run_at(after, s);
                    if s + 5 <= before.len() {
                        assert forall|k: int| s <= k < s + 5 implies run_digit(#[trigger] before[k]) by {
                            assert(run_digit(after[k]));
                        }
                        assert(digit_run_at(before, s));
                        assert(has_long_digit_run(before));
                    } else {
                        assert(run_digit(after[after.len() - 1]));
                        assert forall|k: int| s <= k < after.len() implies run_digit(#[trigger] after[k]) by {
                            assert(digit_run_at(after, s));
                        }
                        assert(trailing_digits(after) >= 5) by {
                            lemma_digits_suffix(after, s);
                        }
                    }
                }
            }
        }
        i = i + 1;
    }
    proof {
        assert(term@.take(n as int) =~= term@);
    }
    has_alpha && 2 <= n && n <= 32
}

proof fn lemma_digits_suffix(t: Seq<char>, s: int)
    requires
        0 <= s <= t.len(),
        forall|k: int| s <= k < t.len() ==> run_digit(#[trigger] t[k]),
    ensures
        trailing_digits(t) >= t.len() - s,
    decreases t.len(),
{
    if t.len() > s {
        assert forall|k: int| s <= k < t.drop_last().len() implies run_digit(#[trigger] t.drop_last()[k]) by {
            assert(t.drop_last()[k] == t[k]);
        }
        lemma_digits_suffix(t.drop_last(), s);
        assert(run_digit(t.last()));
    }
}

/// `t` after deleting, in turn, the characters at the positions `d`.
pub open spec fn delete_all(t: Seq<char>, d: Seq<int>) -> Seq<char>
    decreases d.len(),
{
    if d.len() == 0 {
        t
    } else {
        delete_all(t.remove(d[0]), d.skip(1))
    }
}

/// The deletions `d` can be made from `t`: each position is in range and
/// no deletion is made from a text of one character.
pub open spec fn valid_deletions(t: Seq<char>, d: Seq<int>) -> bool
    decreases d.len(),
{
    if d.len() == 0 {
        true
    } else {
        t.len() > 1 && 0 <= d[0] < t.len() && valid_deletions(t.remove(d[0]), d.skip(1))
    }
}

/// Whether `k` comes from `t` by deleting at most `r` characters, one at a
/// time and never from a text of one character.
pub open spec fn is_deletion_key(k: Seq<char>, t: Seq<char>, r: nat) -> bool {
    exists|d: Seq<int>| d.len() <= r && #[trigger] valid_deletions(t, d) && delete_all(t, d) == k
}

/// The keys that deleting at most `r` characters of `t` gives.
pub open spec fn deletion_set(t: Seq<char>, r: nat) -> Set<Seq<char>> {
    Set::new(|k: Seq<char>| is_deletion_key(k, t, r))
}

/// The keys from `t` itself and from deleting one of its first `n`
/// characters, then at most `r - 1` more.
pub open spec fn partial_deletions(t: Seq<char>, r: nat, n: int) -> Set<Seq<char>> {
    Set::new(
        |k: Seq<char>|
            k == t || exists|i: int|
                0 <= i < n && #[trigger] is_deletion_key(k, t.remove(i), (r - 1) as nat),
    )
}

proof fn lemma_deletion_step(k: Seq<char>, t: Seq<char>, r: nat, i: int)
    requires
        r > 0,
        t.len() > 1,
        0 <= i < t.len(),
        is_deletion_key(k, t.remove(i), (r - 1) as nat),
    ensures
        is_deletion_key(k, t, r),
{
    let d = choose|d: Seq<int>|
        d.len() <= (r - 1) as nat && #[trigger] valid_deletions(t.remove(i), d) && delete_all(
            t.remove(i),
            d,
        ) == k;
    let d2 = seq![i] + d;
    assert(d2.skip(1) =~= d);
    assert(d2[0] == i);
    assert(valid_deletions(t, d2));
    assert(delete_all(t, d2) == k);
}

proof fn lemma_deletion_split(k: Seq<char>, t: Seq<char>, r: nat)
    requires
        is_deletion_key(k, t, r),
        k != t,
    ensures
        r > 0,
        t.len() > 1,
        exists|i: int| 0 <= i < t.len() && #[trigger] is_deletion_key(k, t.remove(i), (r - 1) as nat),
{
    let d = choose|d: Seq<int>| d.len() <= r && #[trigger] valid_deletions(t, d) && delete_all(t, d) == k;
    assert(d.len() > 0);
    let i = d[0];
    assert(valid_deletions(t.remove(i), d.skip(1)));
    assert(delete_all(t.remove(i), d.skip(1)) == k);
    assert(is_deletion_key(k, t.remove(i), (r - 1) as nat));
}

proof fn lemma_deletion_self(t: Seq<char>, r: nat)
    ensures
        is_deletion_key(t, t, r),
{
    let d = Seq::<int>::empty();
    assert(valid_deletions(t, d));
    assert(delete_all(t, d) == t);
}

fn chars_string(chars: &Vec<char>) -> (s: String)
    ensures
        s@ == chars@,
{
    let mut s = String::new();
    let mut i: usize = 0;
    while i < chars.len()
        invariant
            i <= chars@.len(),
            s@ == chars@.take(i as int),
        decreases chars@.len() - i,
    {
        push_char(&mut s, chars[i]);
        proof {
            assert(s@ =~= chars@.take(i as int + 1));
        }
        i = i + 1;
    }
    proof {
        assert(chars@.take(i as int) =~= chars@);
    }
    s
}

fn without(chars: &Vec<char>, index: usize) -> (v: Vec<char>)
    requires
        index < chars@.len(),
    ensures
        v@ == chars@.remove(index as int),
{
    let mut v: Vec<char> = Vec::new();
    let mut i: usize = 0;
    while i < chars.len()
        invariant
            index < chars@.len(),
            i <= chars@.len(),
            v@ == (if i <= index {
                chars@.take(i as int)
            } else {
                chars@.remove(index as int).take(i - 1)
            }),
        decreases chars@.len() - i,
    {
        if i != index {
            v.push(chars[i]);
        }
        proof {
            if i < index {
                assert(v@ =~= chars@.take(i as int + 1));
            } else if i == index {
                assert(v@ =~= chars@.remove(index as int).take(i as int));
            } else {
                assert(v@ =~= chars@.remove(index as int).take(i as int));
            }
        }
        i = i + 1;
    }
    proof {
        assert(chars@.remove(index as int).take(chars@.len() - 1) =~= chars@.remove(index as int));
    }
    v
}

fn collect_deletions(chars: &Vec<char>, remaining: usize, keys: &mut Vec<String>)
    requires
        strictly_sorted(string_views(old(keys)@)),
    ensures
        strictly_sorted(string_views(final(keys)@)),
        string_views(final(keys)@).to_set() == string_views(old(keys)@).to_set().union(
            deletion_set(chars@, remaining as nat),
        ),
    decreases remaining,
{
    let ghost start = string_views(keys@).to_set();
    let s = chars_string(chars);
    insert_sorted_unique(keys, s);
    if remaining == 0 || chars.len() <= 1 {
        proof {
            assert forall|k: Seq<char>| deletion_set(chars@, remaining as nat).contains(k) <==> set![chars@].contains(k) by {
                if k == chars@ {
                    lemma_deletion_self(chars@, remaining as nat);
                } else if deletion_set(chars@, remaining as nat).contains(k) {
                    lemma_deletion_split(k, chars@, remaining as nat);
                }
            }
            assert(deletion_set(chars@, remaining as nat) =~= set![chars@]);
            assert(start.insert(chars@) =~= start.union(set![chars@]));
        }
        return;
    }
    let mut index: usize = 0;
    proof {
        assert(partial_deletions(chars@, remaining as nat, 0) =~= set![chars@]);
        assert(string_views(keys@).to_set() =~= start.union(partial_deletions(chars@, remaining as nat, 0)));
    }
    while index < chars.len()
        invariant
            remaining > 0,
            chars@.len() > 1,
            index <= chars@.len(),
            strictly_sorted(string_views(keys@)),
            string_views(keys@).to_set() == start.union(
                partial_deletions(chars@, remaining as nat, index as int),
            ),
        decreases chars@.len() - index,
    {
        let next = without(chars, index);
        let ghost before = string_views(keys@).to_set();
        collect_deletions(&next, remaining - 1, keys);
        proof {
            assert(string_views(keys@).to_set() =~= start.union(
                partial_deletions(chars@, remaining as nat, index as int + 1),
            )) by {
                assert forall|k: Seq<char>|
                    string_views(keys@).to_set().contains(k) <==> start.union(
                        partial_deletions(chars@, remaining as nat, index as int + 1),
                    ).contains(k) by {
                    if deletion_set(next@, (remaining - 1) as nat).contains(k) {
                        assert(is_deletion_key(k, chars@.remove(index as int), (remaining - 1) as nat));
                        assert(partial_deletions(chars@, remaining as nat, index as int + 1).contains(k));
                    }
                    if partial_deletions(chars@, remaining as nat, index as int + 1).contains(k) && k
                        != chars@ {
                        let i = choose|i: int|
                            0 <= i < index + 1 && #[trigger] is_deletion_key(
                                k,
                                chars@.remove(i),
                                (remaining - 1) as nat,
                            );
                        if i < index {
                            assert(partial_deletions(chars@, remaining as nat, index as int).contains(k));
                        } else {
                            assert(deletion_set(next@, (remaining - 1) as nat).contains(k));
                        }
                    }
                }
            }
        }
        index = index + 1;
    }
    proof {
        let r = remaining as nat;
        assert forall|k: Seq<char>|
            partial_deletions(chars@, r, chars@.len() as int).contains(k) <==> deletion_set(
                chars@,
                r,
            ).contains(k) by {
            if k == chars@ {
                lemma_deletion_self(chars@, r);
            } else {
                if deletion_set(chars@, r).contains(k) {
                    lemma_deletion_split(k, chars@, r);
                }
                if partial_deletions(chars@, r, chars@.len() as int).contains(k) {
                    let i = choose|i: int|
                        0 <= i < chars@.len() && #[trigger] is_deletion_key(
                            k,
                            chars@.remove(i),
                            (r - 1) as nat,
                        );
                    lemma_deletion_step(k, chars@, r, i);
                }
            }
        }
        assert(partial_deletions(chars@, r, chars@.len() as int) =~= deletion_set(chars@, r));
    }
}

/// The keys of a fuzzy term: every text that deleting at most
/// `max_deletions` of its characters gives, sorted and without duplicates;
/// none for a term the fuzzy archive does not index.
pub fn deletion_keys(term: &str, max_deletions: usize) -> (v: Vec<String>)
    ensures
        strictly_sorted(string_views(v@)),
        !fuzzy_term(term@) ==> v@.len() == 0,
        fuzzy_term(term@) ==> string_views(v@).to_set() == deletion_set(term@, max_deletions as nat),
{
    let mut keys: Vec<String> = Vec::new();
    if !is_fuzzy_term(term) {
        return keys;
    }
    let n = term.unicode_len();
    let mut chars: Vec<char> = Vec::new();
    let mut i: usize = 0;
    while i < n
        invariant
            n == term@.len(),
            i <= n,
            chars@ == term@.take(i as int),
        decreases n - i,
    {
        chars.push(term.get_char(i));
        proof {
            assert(chars@ =~= term@.take(i as int + 1));
        }
        i = i + 1;
    }
    proof {
        assert(chars@ =~= term@);
        assert(string_views(keys@).to_set() =~= Set::<Seq<char>>::empty());
    }
    collect_deletions(&chars, max_deletions, &mut keys);
    proof {
        assert(Set::<Seq<char>>::empty().union(deletion_set(term@, max_deletions as nat)) =~= deletion_set(
            term@,
            max_deletions as nat,
        ));
    }
    keys
}

} // verus!
