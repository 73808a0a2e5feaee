//! Reading the program's input text: whitespace, tokens and integers as
//! Rust's `str::split_whitespace`, `str::trim` and `i32::from_str` read
//! them, and the record layout of each ledger's input.

use vstd::prelude::*;

verus! {

broadcast use vstd::string::group_string_axioms;

/// The characters of `s`.
pub fn chars_of(s: &str) -> (res: Vec<char>)
    ensures
        res@ == s@,
{
    let mut out: Vec<char> = Vec::new();
    for c in it: s.chars()
        invariant
            out@ == it.seq().take(it.index() as int),
            it.seq() == s@,
    {
        out.push(c);
    }
    out
}

/// Unicode's `White_Space` characters, which `char::is_whitespace` accepts.
pub open spec fn is_white_space(c: char) -> bool {
    let u = c as u32;
    ||| 0x9 <= u <= 0xD
    ||| u == 0x20
    ||| u == 0x85
    ||| u == 0xA0
    ||| u == 0x1680
    ||| 0x2000 <= u <= 0x200A
    ||| u == 0x2028
    ||| u == 0x2029
    ||| u == 0x202F
    ||| u == 0x205F
    ||| u == 0x3000
}

/// Decides `is_white_space`.
pub fn is_white_space_char(c: char) -> (res: bool)
    ensures
        res == is_white_space(c),
{
    let u = c as u32;
    (0x9 <= u && u <= 0xD) || u == 0x20 || u == 0x85 || u == 0xA0 || u == 0x1680 || (0x2000 <= u
        && u <= 0x200A) || u == 0x2028 || u == 0x2029 || u == 0x202F || u == 0x205F || u == 0x3000
}

/// Reading `s` from the left: the words completed so far and the word
/// being read.
pub open spec fn scan_words(s: Seq<char>) -> (Seq<Seq<char>>, Seq<char>)
    decreases s.len(),
{
    if s.len() == 0 {
        (Seq::empty(), Seq::empty())
    } else {
        let (done, cur) = scan_words(s.drop_last());
        let c = s.last();
        if is_white_space(c) {
            if cur.len() > 0 {
                (done.push(cur), Seq::empty())
            } else {
                (done, cur)
            }
        } else {
            (done, cur.push(c))
        }
    }
}

/// The words of `s`: its maximal runs of characters that are not white
/// space, in order (what `str::split_whitespace` yields).
pub open spec fn words(s: Seq<char>) -> Seq<Seq<char>> {
    let (done, cur) = scan_words(s);
    if cur.len() > 0 {
        done.push(cur)
    } else {
        done
    }
}

/// The texts of a sequence of character vectors.
pub open spec fn texts(v: Seq<Vec<char>>) -> Seq<Seq<char>> {
    v.map_values(|w: Vec<char>| w@)
}

/// Every word is non-empty.
pub proof fn lemma_words_non_empty(s: Seq<char>)
    ensures
        forall|i: int| 0 <= i < words(s).len() ==> (#[trigger] words(s)[i]).len() > 0,
{
    lemma_scan_words_non_empty(s);
    let (done, cur) = scan_words(s);
    assert forall|i: int| 0 <= i < words(s).len() implies (#[trigger] words(s)[i]).len() > 0 by {
        if i < done.len() {
            assert(words(s)[i] == done[i]);
        }
    }
}

proof fn lemma_scan_words_non_empty(s: Seq<char>)
    ensures
        forall|i: int|
            0 <= i < scan_words(s).0.len() ==> (#[trigger] scan_words(s).0[i]).len() > 0,
    decreases s.len(),
{
    if s.len() > 0 {
        lemma_scan_words_non_empty(s.drop_last());
        let (done, cur) = scan_words(s.drop_last());
        let c = s.last();
        if is_white_space(c) && cur.len() > 0 {
            assert(scan_words(s).0 == done.push(cur));
            assert forall|i: int| 0 <= i < scan_words(s).0.len() implies (
            #[trigger] scan_words(s).0[i]).len() > 0 by {
                if i < done.len() {
                    assert(scan_words(s).0[i] == done[i]);
                }
            }
        } else {
            assert(scan_words(s).0 == done);
        }
    }
}

/// Splits `line` into its words.
pub fn split_words(line: &Vec<char>) -> (res: Vec<Vec<char>>)
    ensures
        texts(res@) == words(line@),
        forall|i: int| 0 <= i < res@.len() ==> (#[trigger] res@[i])@.len() > 0,
{
    let n = line.len();
    let mut done: Vec<Vec<char>> = Vec::new();
    let mut cur: Vec<char> = Vec::new();
    let mut i: usize = 0;
    while i < n
        invariant
            n == line@.len(),
            i <= n,
            scan_words(line@.take(i as int)) == (texts(done@), cur@),
        decreases n - i,
    {
        let c = line[i];
        assert(line@.take(i + 1).drop_last() =~= line@.take(i as int));
        assert(line@.take(i + 1).last() == c);
        if is_white_space_char(c) {
            if cur.len() > 0 {
                let mut word: Vec<char> = Vec::new();
                std::mem::swap(&mut word, &mut cur);
                let ghost before = done@;
                done.push(word);
                assert(texts(done@) =~= texts(before).push(word@));
                assert(cur@ =~= Seq::<char>::empty());
            }
        } else {
            cur.push(c);
        }
        i = i + 1;
    }
    assert(line@.take(n as int) =~= line@);
    if cur.len() > 0 {
        let ghost before = done@;
        done.push(cur);
        assert(texts(done@) =~= texts(before).push(done@.last()@));
    }
    proof {
        lemma_words_non_empty(line@);
        assert(texts(done@) == words(line@));
        assert forall|i: int| 0 <= i < done@.len() implies (#[trigger] done@[i])@.len() > 0 by {
            assert(texts(done@)[i] == done@[i]@);
            assert(words(line@)[i] == texts(done@)[i]);
        }
    }
    done
}

/// `s` without its leading white space.
pub open spec fn trim_start(s: Seq<char>) -> Seq<char>
    decreases s.len(),
{
    if s.len() > 0 && is_white_space(s[0]) {
        trim_start(s.drop_first())
    } else {
        s
    }
}

/// `s` without its trailing white space.
pub open spec fn trim_end(s: Seq<char>) -> Seq<char>
    decreases s.len(),
{
    if s.len() > 0 && is_white_space(s.last()) {
        trim_end(s.drop_last())
    } else {
        s
    }
}

/// `s` without leading and trailing white space (what `str::trim` gives).
pub open spec fn trim(s: Seq<char>) -> Seq<char> {
    trim_end(trim_start(s))
}

/// Removes leading and trailing white space.
pub fn trimmed(line: &Vec<char>) -> (res: Vec<char>)
    ensures
        res@ == trim(line@),
{
    let n = line.len();
    let mut i: usize = 0;
    assert(line@.skip(0) =~= line@);
    while i < n && is_white_space_char(line[i])
        invariant
            n == line@.len(),
            i <= n,
            trim_start(line@) == trim_start(line@.skip(i as int)),
        decreases n - i,
    {
        assert(line@.skip(i as int).drop_first() =~= line@.skip(i + 1));
        i = i + 1;
    }
    assert(trim_start(line@) == line@.skip(i as int)) by {
        if i < n {
            assert(line@.skip(i as int)[0] == line@[i as int]);
        }
    }
    let mut j: usize = n;
    while j > i && is_white_space_char(line[j - 1])
        invariant
            n == line@.len(),
            i <= j <= n,
            trim_end(line@.subrange(i as int, n as int)) == trim_end(
                line@.subrange(i as int, j as int),
            ),
        decreases j,
    {
        assert(line@.subrange(i as int, j as int).drop_last() =~= line@.subrange(
            i as int,
            j - 1,
        ));
        j = j - 1;
    }
    assert(line@.skip(i as int) =~= line@.subrange(i as int, n as int));
    let mut out: Vec<char> = Vec::new();
    let mut k: usize = i;
    while k < j
        invariant
            i <= k <= j <= n,
            n == line@.len(),
            out@ =~= line@.subrange(i as int, k as int),
        decreases j - k,
    {
        out.push(line[k]);
        k = k + 1;
    }
    out
}

/// Whether `c` is an ASCII decimal digit.
pub open spec fn is_digit(c: char) -> bool {
    '0' <= c <= '9'
}

/// The value of a string of decimal digits (0 for the empty string).
pub open spec fn digits_value(s: Seq<char>) -> int
    decreases s.len(),
{
    if s.len() == 0 {
        0
    } else {
        digits_value(s.drop_last()) * 10 + (s.last() as int - '0' as int)
    }
}

/// The integer written by `s`: an optional `+` or `-` followed by at least
/// one decimal digit, and nothing else.
pub open spec fn integer_value(s: Seq<char>) -> Option<int> {
    if s.len() > 0 && (s[0] == '-' || s[0] == '+') {
        let body = s.drop_first();
        if body.len() > 0 && forall|i: int| 0 <= i < body.len() ==> is_digit(#[trigger] body[i]) {
            Some(
                if s[0] == '-' {
                    -digits_value(body)
                } else {
                    digits_value(body)
                },
            )
        } else {
            None
        }
    } else if s.len() > 0 && forall|i: int| 0 <= i < s.len() ==> is_digit(#[trigger] s[i]) {
        Some(digits_value(s))
    } else {
        None
    }
}

/// What `i32::from_str` gives for `s`: the integer it writes, where that
/// fits in `i32`.
pub open spec fn parse_i32(s: Seq<char>) -> Option<i32> {
    match integer_value(s) {
        Some(v) => if i32::MIN <= v <= i32::MAX {
            Some(v as i32)
        } else {
            None
        },
        None => None,
    }
}

proof fn lemma_digits_value_nonneg(s: Seq<char>)
    requires
        forall|i: int| 0 <= i < s.len() ==> is_digit(#[trigger] s[i]),
    ensures
        digits_value(s) >= 0,
    decreases s.len(),
{
    if s.len() > 0 {
        lemma_digits_value_nonneg(s.drop_last());
    }
}

/// The text after an optional leading sign.
pub open spec fn unsigned_part(s: Seq<char>) -> Seq<char> {
    if s.len() > 0 && (s[0] == '-' || s[0] == '+') {
        s.drop_first()
    } else {
        s
    }
}

proof fn lemma_integer_value_parts(s: Seq<char>)
    ensures
        integer_value(s) == if unsigned_part(s).len() > 0 && forall|i: int|
            0 <= i < unsigned_part(s).len() ==> is_digit(#[trigger] unsigned_part(s)[i]) {
            Some(
                if s.len() > 0 && s[0] == '-' {
                    -digits_value(unsigned_part(s))
                } else {
                    digits_value(unsigned_part(s))
                },
            )
        } else {
            None
        },
{
}

/// Reads an `i32` as `i32::from_str` does.
pub fn read_i32(s: &Vec<char>) -> (res: Option<i32>)
    ensures
        res == parse_i32(s@),
{
    proof {
        lemma_integer_value_parts(s@);
    }
    let n = s.len();
    if n == 0 {
        return None;
    }
    let negative = s[0] == '-';
    let start: usize = if s[0] == '-' || s[0] == '+' {
        1
    } else {
        0
    };
    let ghost body = unsigned_part(s@);
    assert(body =~= s@.subrange(start as int, n as int));
    if start == n {
        return None;
    }
    let mut acc: i64 = 0;
    let mut big = false;
    let mut i: usize = start;
    while i < n
        invariant
            n == s@.len(),
            start <= i <= n,
            body =~= s@.subrange(start as int, n as int),
            body == unsigned_part(s@),
            forall|k: int| start <= k < i ==> is_digit(#[trigger] s@[k]),
            !big ==> acc == digits_value(s@.subrange(start as int, i as int)) && 0 <= acc
                <= 0x8000_0000,
            big ==> digits_value(s@.subrange(start as int, i as int)) > 0x8000_0000,
        decreases n - i,
    {
        let c = s[i];
        if !('0' <= c && c <= '9') {
            assert(body[i - start] == c);
            assert(!is_digit(body[i - start]));
            proof {
                lemma_integer_value_parts(s@);
            }
            return None;
        }
        let d = (c as u32 - '0' as u32) as i64;
        assert(s@.subrange(start as int, i + 1).drop_last() =~= s@.subrange(start as int, i as int));
        if !big {
            acc = acc * 10 + d;
            if acc > 0x8000_0000 {
                big = true;
            }
        }
        i = i + 1;
    }
    assert(s@.subrange(start as int, n as int) =~= body);
    assert forall|k: int| 0 <= k < body.len() implies is_digit(#[trigger] body[k]) by {
        assert(body[k] == s@[start + k]);
    }
    if big {
        return None;
    }
    let value: i64 = if negative {
        -acc
    } else {
        acc
    };
    if value < i32::MIN as i64 || value > i32::MAX as i64 {
        return None;
    }
    Some(value as i32)
}

/// The integer on line `pos`, alone but for surrounding white space; `None`
/// where there is no such line or it holds no `i32`.
pub open spec fn count_at(lines: Seq<Seq<char>>, pos: int) -> Option<i32> {
    if 0 <= pos < lines.len() {
        parse_i32(trim(lines[pos]))
    } else {
        None
    }
}

/// Reads `n` records, one per line from line `pos` on, after those in
/// `acc`; `None` where a line is missing or does not hold a record. A count
/// below 1 reads nothing.
pub open spec fn read_from<T>(
    lines: Seq<Seq<char>>,
    pos: int,
    n: int,
    record: spec_fn(Seq<char>) -> Option<T>,
    acc: Seq<T>,
) -> Option<Seq<T>>
    decreases n,
{
    if n <= 0 {
        Some(acc)
    } else if pos < 0 || pos >= lines.len() {
        None
    } else {
        match record(lines[pos]) {
            None => None,
            Some(t) => read_from(lines, pos + 1, n - 1, record, acc.push(t)),
        }
    }
}

/// The number of lines a count of `n` records takes.
pub open spec fn span(n: i32) -> int {
    if n < 0 {
        0
    } else {
        n as int
    }
}

/// The texts of the lines.
pub open spec fn line_texts(lines: Seq<String>) -> Seq<Seq<char>> {
    lines.map_values(|l: String| l@)
}

/// An account line: the account is the first character of the first word,
/// its balance the second word.
pub open spec fn account_record(line: Seq<char>) -> Option<(char, i32)> {
    let w = words(line);
    if w.len() < 2 {
        None
    } else {
        match parse_i32(w[1]) {
            Some(b) => Some((w[0][0], b)),
            None => None,
        }
    }
}

/// An account line is read word by word: where it gives an account, it has
/// at least two words, the account is the first character of the first and
/// the balance the integer of the second; it gives none exactly where there
/// are fewer than two words or the second is no `i32`.
pub proof fn lemma_account_record_words(line: Seq<char>)
    ensures
        ({
            let w = words(line);
            match account_record(line) {
                Some(r) => w.len() >= 2 && r.0 == w[0][0] && parse_i32(w[1]) == Some(r.1),
                None => w.len() < 2 || parse_i32(w[1]) is None,
            }
        }),
{
}

/// `account_record` as a function value.
pub open spec fn account_parser() -> spec_fn(Seq<char>) -> Option<(char, i32)> {
    |l: Seq<char>| account_record(l)
}

/// The balances after setting each account in turn (a later line for the
/// same account wins).
pub open spec fn balances_of(entries: Seq<(char, i32)>) -> Map<u32, i32>
    decreases entries.len(),
{
    if entries.len() == 0 {
        Map::empty()
    } else {
        balances_of(entries.drop_last()).insert(entries.last().0 as u32, entries.last().1)
    }
}

/// The characters of line `pos`.
pub fn line_chars(lines: &Vec<String>, pos: usize) -> (res: Vec<char>)
    requires
        pos < lines@.len(),
    ensures
        res@ == lines@[pos as int]@,
{
    chars_of(lines[pos].as_str())
}

/// Reads the count on line `pos` (see `count_at`).
pub fn read_count(lines: &Vec<String>, pos: usize) -> (res: Option<i32>)
    ensures
        res == count_at(line_texts(lines@), pos as int),
{
    if pos >= lines.len() {
        return None;
    }
    let line = line_chars(lines, pos);
    let t = trimmed(&line);
    read_i32(&t)
}

/// Reads an account line (see `account_record`).
pub fn read_account(line: &Vec<char>) -> (res: Option<(char, i32)>)
    ensures
        res == account_record(line@),
        ({
            let w = words(line@);
            match res {
                Some(r) => w.len() >= 2 && r.0 == w[0][0] && parse_i32(w[1]) == Some(r.1),
                None => w.len() < 2 || parse_i32(w[1]) is None,
            }
        }),
{
    proof {
        lemma_account_record_words(line@);
    }
    let w = split_words(line);
    if w.len() < 2 {
        return None;
    }
    assert(texts(w@)[0] == w@[0]@ && texts(w@)[1] == w@[1]@);
    match read_i32(&w[1]) {
        Some(b) => Some((w[0][0], b)),
        None => None,
    }
}

/// Reads `n` account lines from line `pos` on into balances.
pub fn read_accounts(lines: &Vec<String>, pos: usize, n: i32) -> (res: Option<
    std::collections::HashMap<u32, i32>,
>)
    ensures
        match read_from(line_texts(lines@), pos as int, n as int, account_parser(), Seq::empty()) {
            Some(entries) => res matches Some(m) && m@ == balances_of(entries),
            None => res is None,
        },
{
    broadcast use vstd::std_specs::hash::group_hash_axioms;
    let ghost texts_of = line_texts(lines@);
    let ghost target = read_from(texts_of, pos as int, n as int, account_parser(), Seq::empty());
    let mut balances: std::collections::HashMap<u32, i32> = std::collections::HashMap::new();
    let ghost mut entries: Seq<(char, i32)> = Seq::empty();
    let mut k: i32 = 0;
    let mut p: usize = pos;
    assert(balances@ =~= balances_of(entries));
    while k < n
        invariant
            texts_of == line_texts(lines@),
            0 <= k,
            k <= n || n < 0,
            p == pos + k,
            target == read_from(texts_of, p as int, n - k, account_parser(), entries),
            target == read_from(texts_of, pos as int, n as int, account_parser(), Seq::empty()),
            balances@ == balances_of(entries),
        decreases n - k,
    {
        if p >= lines.len() {
            assert(target is None);
            return None;
        }
        let line = line_chars(lines, p);
        assert(texts_of[p as int] == line@);
        assert((account_parser())(line@) == account_record(line@));
        match read_account(&line) {
            None => {
                assert(target is None);
                return None;
            },
            Some((account, balance)) => {
                balances.insert(account as u32, balance);
                let ghost old_entries = entries;
                proof {
                    entries = entries.push((account, balance));
                }
                assert(entries.drop_last() =~= old_entries);
                assert(balances@ == balances_of(entries));
            },
        }
        k = k + 1;
        p = p + 1;
    }
    Some(balances)
}

/// A successful read of `n` records from line `pos` on gives, after `acc`,
/// the record of each of those lines in turn, and nothing more.
pub proof fn lemma_read_from_items<T>(
    lines: Seq<Seq<char>>,
    pos: int,
    n: int,
    record: spec_fn(Seq<char>) -> Option<T>,
    acc: Seq<T>,
)
    requires
        pos >= 0,
        read_from(lines, pos, n, record, acc) is Some,
    ensures
        ({
            let t = read_from(lines, pos, n, record, acc).unwrap();
            &&& t.len() == acc.len() + (if n > 0 { n } else { 0 })
            &&& t.take(acc.len() as int) == acc
            &&& forall|i: int| 0 <= i < n ==> record(lines[pos + i]) == Some(#[trigger] t[acc.len() + i])
        }),
    decreases n,
{
    if n > 0 {
        let x = record(lines[pos]).unwrap();
        let acc1 = acc.push(x);
        lemma_read_from_items(lines, pos + 1, n - 1, record, acc1);
        let t = read_from(lines, pos, n, record, acc).unwrap();
        assert(t == read_from(lines, pos + 1, n - 1, record, acc1).unwrap());
        assert(t.take(acc1.len() as int)[acc.len() as int] == x);
        assert(t.take(acc.len() as int) =~= t.take(acc1.len() as int).take(acc.len() as int));
        assert forall|i: int| 0 <= i < n implies record(lines[pos + i]) == Some(#[trigger] t[acc.len() + i]) by {
            if i > 0 {
                assert(record(lines[(pos + 1) + (i - 1)]) == Some(t[acc1.len() + (i - 1)]));
            }
        }
    } else {
        assert(acc.take(acc.len() as int) =~= acc);
    }
}

/// A successful read stays within the lines.
pub proof fn lemma_read_within<T>(
    lines: Seq<Seq<char>>,
    pos: int,
    n: int,
    record: spec_fn(Seq<char>) -> Option<T>,
    acc: Seq<T>,
)
    requires
        pos >= 0,
        read_from(lines, pos, n, record, acc) is Some,
    ensures
        n > 0 ==> pos + n <= lines.len(),
    decreases n,
{
    if n > 0 {
        lemma_read_within(lines, pos + 1, n - 1, record, acc.push(record(lines[pos]).unwrap()));
    }
}

/// The line after `n` records that start at line `pos`, where those records
/// were read.
pub fn after_records(pos: usize, n: i32, len: usize) -> (res: usize)
    requires
        n > 0 ==> pos + n <= len,
    ensures
        res == pos + span(n),
{
    if n <= 0 {
        pos
    } else {
        pos + n as usize
    }
}

/// Collects `chars` into a `String` (std's `FromIterator<char>` for
/// `String`, which appends the characters in order). Trusted: the result's
/// text is `chars`.
#[verifier::external_body]
pub(crate) fn string_of(chars: &Vec<char>) -> (res: String)
    ensures
        res@ == chars@,
{
    chars.iter().collect::<String>()
}

} // verus!
