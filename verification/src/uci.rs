//! The UCI protocol's arguments: which command a line holds, the `position`
//! command's FEN and moves, the `go` command's time budget, and the contempt
//! chosen for a search.
use vstd::prelude::*;
use vstd::string::{StrSliceExecFns, StringExecFns};
use shakmaty::Chess;

use crate::CONTEMPT;
use crate::chess::{start_position, parse_fen, fen_position, parse_uci_move, uci_to_move, play_move, hash,
    zobrist_of, played, fen_parse_of, fen_position_of, uci_parse_of, uci_move_of, is_start};

verus! {

/// The words of a command line, as character sequences.
pub open spec fn words_of(args: Seq<&str>) -> Seq<Seq<char>> {
    args.map_values(|w: &str| w@)
}

/// Whether two words hold the same characters.
fn same_word(a: &str, b: &str) -> (r: bool)
    ensures
        r == (a@ == b@),
{
    let n = a.unicode_len();
    if n != b.unicode_len() {
        return false;
    }
    let mut i: usize = 0;
    while i < n
        invariant
            n == a@.len(),
            n == b@.len(),
            i <= n,
            forall|j: int| 0 <= j < i ==> a@[j] == b@[j],
        decreases n - i,
    {
        if a.get_char(i) != b.get_char(i) {
            return false;
        }
        i += 1;
    }
    assert(a@ =~= b@);
    true
}

/// Whether every character is an ASCII digit.
pub open spec fn all_digits(s: Seq<char>) -> bool {
    forall|i: int| 0 <= i < s.len() ==> '0' <= #[trigger] s[i] <= '9'
}

/// The number written by a string of decimal digits.
pub open spec fn digits_value(s: Seq<char>) -> int
    decreases s.len(),
{
    if s.len() == 0 {
        0
    } else {
        digits_value(s.drop_last()) * 10 + (s.last() as int - '0' as int)
    }
}

/// `u64`'s `FromStr`: an optional `+` followed by one or more decimal digits, naming a
/// value that fits in 64 bits; anything else is an error.
pub open spec fn spec_parse_u64(s: Seq<char>) -> Option<u64> {
    let d = if s.len() > 0 && s[0] == '+' {
        s.drop_first()
    } else {
        s
    };
    if d.len() > 0 && all_digits(d) && digits_value(d) <= u64::MAX {
        Some(digits_value(d) as u64)
    } else {
        None
    }
}

/// A number of moves or milliseconds, as `u64`'s `FromStr` reads it: an optional `+`, then
/// one or more decimal digits naming a value that fits in 64 bits; `None` otherwise.
fn parse_u64(s: &str) -> (r: Option<u64>)
    ensures
        r == spec_parse_u64(s@),
{
    let n = s.unicode_len();
    let start: usize = if n > 0 && s.get_char(0) == '+' {
        1
    } else {
        0
    };
    let ghost d = if s@.len() > 0 && s@[0] == '+' {
        s@.drop_first()
    } else {
        s@
    };
    assert(d =~= s@.subrange(start as int, n as int));
    if start == n {
        return None;
    }
    let mut v: u64 = 0;
    let mut overflow = false;
    let mut i: usize = start;
    assert(s@.subrange(start as int, i as int) =~= Seq::<char>::empty());
    while i < n
        invariant
            start <= i <= n,
            n == s@.len(),
            d == s@.subrange(start as int, n as int),
            d == (if s@.len() > 0 && s@[0] == '+' {
                s@.drop_first()
            } else {
                s@
            }),
            all_digits(s@.subrange(start as int, i as int)),
            !overflow ==> v == digits_value(s@.subrange(start as int, i as int)),
            overflow ==> digits_value(s@.subrange(start as int, i as int)) > u64::MAX,
        decreases n - i,
    {
        let c = s.get_char(i);
        if c < '0' || c > '9' {
            assert(d[i - start] == c);
            assert(!all_digits(d));
            return None;
        }
        let digit = (c as u32 - '0' as u32) as u64;
        proof {
            assert(s@.subrange(start as int, i + 1).drop_last() =~= s@.subrange(start as int, i as int));
            assert(s@.subrange(start as int, i + 1).last() == c);
        }
        if !overflow {
            match v.checked_mul(10) {
                Some(x) => match x.checked_add(digit) {
                    Some(y) => {
                        v = y;
                    },
                    None => {
                        overflow = true;
                    },
                },
                None => {
                    overflow = true;
                },
            }
        }
        i += 1;
    }
    assert(s@.subrange(start as int, i as int) == d);
    if overflow {
        None
    } else {
        Some(v)
    }
}

/// The words joined with single spaces between them.
pub open spec fn joined(words: Seq<Seq<char>>) -> Seq<char>
    decreases words.len(),
{
    if words.len() == 0 {
        Seq::empty()
    } else if words.len() == 1 {
        words[0]
    } else {
        joined(words.drop_last()) + seq![' '] + words.last()
    }
}

/// The words with a space between each two.
fn join_words(words: &[&str]) -> (r: String)
    ensures
        r@ == joined(words_of(words@)),
{
    let ghost all = words_of(words@);
    let mut out = String::new();
    let mut i: usize = 0;
    while i < words.len()
        invariant
            i <= words@.len(),
            all == words_of(words@),
            out@ == joined(all.take(i as int)),
        decreases words@.len() - i,
    {
        proof {
            reveal_strlit(" ");
            assert(all.take(i + 1).drop_last() =~= all.take(i as int));
            assert(all.take(i + 1).last() == words@[i as int]@);
        }
        if i > 0 {
            out.append(" ");
        }
        out.append(words[i]);
        i += 1;
    }
    assert(all.take(words@.len() as int) =~= all);
    out
}

/// `i` is the first position of `key` among `words`.
pub open spec fn first_at(words: Seq<Seq<char>>, key: Seq<char>, i: int) -> bool {
    &&& 0 <= i < words.len()
    &&& words[i] == key
    &&& forall|j: int| 0 <= j < i ==> words[j] != key
}

/// The first position of `key` among the arguments.
pub fn find_word(args: &[&str], key: &str) -> (r: Option<usize>)
    ensures
        r matches Some(i) ==> first_at(words_of(args@), key@, i as int),
        r is None ==> forall|j: int| 0 <= j < args@.len() ==> words_of(args@)[j] != key@,
{
    let mut i: usize = 0;
    while i < args.len()
        invariant
            i <= args@.len(),
            forall|j: int| 0 <= j < i ==> words_of(args@)[j] != key@,
        decreases args@.len() - i,
    {
        if same_word(args[i], key) {
            return Some(i);
        }
        i += 1;
    }
    None
}

/// The number that follows the first occurrence of `key`, if it is followed by a
/// word that parses as one.
pub open spec fn value_after(words: Seq<Seq<char>>, key: Seq<char>) -> Option<u64> {
    if exists|i: int| first_at(words, key, i) {
        let i = choose|i: int| first_at(words, key, i);
        if i + 1 < words.len() {
            spec_parse_u64(words[i + 1])
        } else {
            None
        }
    } else {
        None
    }
}

/// How a `go` argument is found: the number right after the first occurrence of `key`,
/// when it parses; words before that occurrence are skipped, words after it not read.
pub proof fn lemma_value_after_laws(words: Seq<Seq<char>>, key: Seq<char>, w: Seq<char>, n: Seq<char>)
    ensures
        value_after(Seq::empty(), key) is None,
        value_after(seq![key], key) is None,
        value_after(seq![key, n] + words, key) == spec_parse_u64(n),
        w != key ==> value_after(seq![w] + words, key) == value_after(words, key),
{
    let e: Seq<Seq<char>> = Seq::empty();
    assert(!exists|i: int| first_at(e, key, i));
    let one = seq![key];
    assert(first_at(one, key, 0));
    let i1 = choose|i: int| first_at(one, key, i);
    lemma_first_unique(one, key, 0, i1);
    let two = seq![key, n] + words;
    assert(two[0] == key);
    assert(first_at(two, key, 0));
    let i2 = choose|i: int| first_at(two, key, i);
    lemma_first_unique(two, key, 0, i2);
    assert(two[1] == n);
    if w != key {
        let ws = seq![w] + words;
        assert forall|i: int| first_at(ws, key, i + 1) <==> first_at(words, key, i) by {
            if first_at(ws, key, i + 1) {
                assert forall|j: int| 0 <= j < i implies words[j] != key by {
                    assert(ws[j + 1] == words[j]);
                }
            }
            if first_at(words, key, i) {
                assert forall|j: int| 0 <= j < i + 1 implies ws[j] != key by {
                    if j > 0 {
                        assert(ws[j] == words[j - 1]);
                    }
                }
            }
        }
        assert(!first_at(ws, key, 0));
        if exists|i: int| first_at(words, key, i) {
            let i = choose|i: int| first_at(words, key, i);
            assert(first_at(ws, key, i + 1));
            let k = choose|k: int| first_at(ws, key, k);
            lemma_first_unique(ws, key, i + 1, k);
            if i + 1 < words.len() {
                assert(ws[i + 2] == words[i + 1]);
            }
        } else {
            if exists|k: int| first_at(ws, key, k) {
                let k = choose|k: int| first_at(ws, key, k);
                assert(k != 0);
                assert(first_at(words, key, k - 1));
            }
        }
    }
}

proof fn lemma_digits_nonneg(s: Seq<char>)
    requires
        all_digits(s),
    ensures
        digits_value(s) >= 0,
    decreases s.len(),
{
    if s.len() > 0 {
        assert(all_digits(s.drop_last())) by {
            assert forall|i: int| 0 <= i < s.drop_last().len() implies '0' <= #[trigger] s.drop_last()[i] <= '9' by {
                assert(s.drop_last()[i] == s[i]);
            }
        }
        lemma_digits_nonneg(s.drop_last());
        assert('0' <= s[s.len() - 1] <= '9');
    }
}

/// How `u64`'s `FromStr` reads digits: one digit is its own value, each further digit
/// multiplies by ten and adds itself (while the value fits in 64 bits, and fails after),
/// a leading `+` is skipped, and a character that is not a digit anywhere else fails.
pub proof fn lemma_parse_u64_laws(s: Seq<char>, c: Seq<char>, v: u64)
    ensures
        forall|d: char| '0' <= d <= '9' ==> #[trigger] spec_parse_u64(seq![d]) == Some((d as u64 - '0' as u64) as u64),
        spec_parse_u64(s) == Some(v) && s[0] != '+' ==> forall|d: char|
            '0' <= d <= '9' ==> #[trigger] spec_parse_u64(s.push(d)) == if v * 10 + (d as int - '0' as int)
                <= u64::MAX {
                Some((v * 10 + (d as int - '0' as int)) as u64)
            } else {
                None
            },
        s.len() > 0 && s[0] != '+' ==> spec_parse_u64(seq!['+'] + s) == spec_parse_u64(s),
        (exists|i: int| 0 < i < s.len() && !('0' <= #[trigger] s[i] <= '9')) ==> spec_parse_u64(s) is None,
        spec_parse_u64(Seq::empty()) is None,
        spec_parse_u64(seq!['+']) is None,
{
    assert forall|d: char| '0' <= d <= '9' implies #[trigger] spec_parse_u64(seq![d]) == Some(
        (d as u64 - '0' as u64) as u64,
    ) by {
        let t = seq![d];
        assert(t.drop_last() =~= Seq::<char>::empty());
        assert(digits_value(Seq::<char>::empty()) == 0);
        assert(digits_value(t) == d as int - '0' as int);
        assert(all_digits(t));
    }
    if spec_parse_u64(s) == Some(v) && s[0] != '+' {
        assert forall|d: char| '0' <= d <= '9' implies #[trigger] spec_parse_u64(s.push(d)) == if v * 10 + (
        d as int - '0' as int) <= u64::MAX {
            Some((v * 10 + (d as int - '0' as int)) as u64)
        } else {
            None
        } by {
            let t = s.push(d);
            assert(t.drop_last() =~= s);
            assert(t[0] == s[0]);
            assert(s.len() > 0);
            lemma_digits_nonneg(s);
            assert(digits_value(s) == v);
            assert(digits_value(t) == digits_value(s) * 10 + (d as int - '0' as int));
            assert(all_digits(t)) by {
                assert forall|i: int| 0 <= i < t.len() implies '0' <= #[trigger] t[i] <= '9' by {
                    if i < s.len() {
                        assert(t[i] == s[i]);
                    }
                }
            }
        }
    }
    if s.len() > 0 && s[0] != '+' {
        let p = seq!['+'] + s;
        assert(p.drop_first() =~= s);
    }
    if exists|i: int| 0 < i < s.len() && !('0' <= #[trigger] s[i] <= '9') {
        let i = choose|i: int| 0 < i < s.len() && !('0' <= #[trigger] s[i] <= '9');
        if s[0] == '+' {
            assert(s.drop_first()[i - 1] == s[i]);
        }
    }
    let pl = seq!['+'];
    assert(pl.drop_first() =~= Seq::<char>::empty());
}

proof fn lemma_first_unique(words: Seq<Seq<char>>, key: Seq<char>, i: int, k: int)
    requires
        first_at(words, key, i),
        first_at(words, key, k),
    ensures
        i == k,
{
    if i < k {
        assert(words[i] != key);
    } else if k < i {
        assert(words[k] != key);
    }
}

/// The number that follows `key` among the arguments (`value_after`).
pub fn arg_value(args: &[&str], key: &str) -> (r: Option<u64>)
    ensures
        r == value_after(words_of(args@), key@),
{
    match find_word(args, key) {
        None => None,
        Some(i) => {
            proof {
                let k = choose|k: int| first_at(words_of(args@), key@, k);
                lemma_first_unique(words_of(args@), key@, i as int, k);
            }
            if args.len() - i > 1 {
                parse_u64(args[i + 1])
            } else {
                None
            }
        },
    }
}

/// The `go` budget in milliseconds before the caps: `movetime` if given, else the side's
/// remaining time over 30 plus its increment, else 5000.
pub open spec fn raw_budget(words: Seq<Seq<char>>, white_to_move: bool) -> int {
    match value_after(words, "movetime"@) {
        Some(mt) => mt as int,
        None => {
            let t = if white_to_move {
                value_after(words, "wtime"@)
            } else {
                value_after(words, "btime"@)
            };
            let inc = if white_to_move {
                value_after(words, "winc"@)
            } else {
                value_after(words, "binc"@)
            };
            match t {
                None => 5000,
                Some(t) => t / 30 + match inc {
                    Some(i) => i as int,
                    None => 0,
                },
            }
        },
    }
}

/// The time to think in milliseconds: the raw budget capped at 5000 (the 5 s/move rule),
/// less a 100 ms margin for process overhead, and at least 10.
pub open spec fn spec_think_time(words: Seq<Seq<char>>, white_to_move: bool) -> int {
    let capped = if raw_budget(words, white_to_move) < 5000 {
        raw_budget(words, white_to_move)
    } else {
        5000
    };
    let less = if capped > 100 {
        capped - 100
    } else {
        0
    };
    if less > 10 {
        less
    } else {
        10
    }
}

/// The time to think for the side to move when the `go` line has no `movetime` and gives
/// that side's remaining time `t` (`wtime` for White, `btime` for Black) and, optionally,
/// its increment `inc` (`winc` / `binc`): `t / 30 + inc`, capped at 5000, less 100, and at
/// least 10. Without `movetime` and without the side's time, 4900; with `movetime` `mt`,
/// `mt` capped at 5000, less 100, and at least 10.
pub proof fn lemma_budget_of_side(words: Seq<Seq<char>>, white_to_move: bool)
    ensures
        ({
            let t = value_after(words, if white_to_move { "wtime"@ } else { "btime"@ });
            let inc = value_after(words, if white_to_move { "winc"@ } else { "binc"@ });
            let b: int = match t {
                Some(t) => t / 30 + match inc {
                    Some(i) => i as int,
                    None => 0int,
                },
                None => 5000,
            };
            value_after(words, "movetime"@) is None ==> spec_think_time(words, white_to_move) == if b
                >= 5000 {
                4900
            } else if b - 100 > 10 {
                b - 100
            } else {
                10
            }
        }),
        value_after(words, "movetime"@) matches Some(mt) ==> spec_think_time(words, white_to_move)
            == if mt >= 5000 {
            4900
        } else if mt - 100 > 10 {
            mt - 100
        } else {
            10
        },
{
}

/// A `go` argument with the colours exchanged: `wtime` and `btime`, `winc` and `binc`
/// change places; every other word stays.
pub open spec fn other_side_word(w: Seq<char>) -> Seq<char> {
    if w == "wtime"@ {
        "btime"@
    } else if w == "btime"@ {
        "wtime"@
    } else if w == "winc"@ {
        "binc"@
    } else if w == "binc"@ {
        "winc"@
    } else {
        w
    }
}

/// A `go` line with the colours exchanged.
pub open spec fn other_side_words(words: Seq<Seq<char>>) -> Seq<Seq<char>> {
    words.map_values(|w: Seq<char>| other_side_word(w))
}

proof fn lemma_side_words()
    ensures
        "wtime"@ != "btime"@,
        "wtime"@ != "winc"@,
        "wtime"@ != "binc"@,
        "btime"@ != "winc"@,
        "btime"@ != "binc"@,
        "winc"@ != "binc"@,
        "movetime"@ != "wtime"@,
        "movetime"@ != "btime"@,
        "movetime"@ != "winc"@,
        "movetime"@ != "binc"@,
        spec_parse_u64("wtime"@) is None,
        spec_parse_u64("btime"@) is None,
        spec_parse_u64("winc"@) is None,
        spec_parse_u64("binc"@) is None,
{
    reveal_strlit("wtime");
    reveal_strlit("btime");
    reveal_strlit("winc");
    reveal_strlit("binc");
    reveal_strlit("movetime");
    assert("wtime"@[0] != "btime"@[0]);
    assert("wtime"@.len() != "winc"@.len());
    assert("wtime"@.len() != "binc"@.len());
    assert("btime"@.len() != "winc"@.len());
    assert("btime"@.len() != "binc"@.len());
    assert("winc"@[0] != "binc"@[0]);
    assert("movetime"@.len() != "wtime"@.len());
    assert("movetime"@.len() != "btime"@.len());
    assert("movetime"@.len() != "winc"@.len());
    assert("movetime"@.len() != "binc"@.len());
    assert(!all_digits("wtime"@) && "wtime"@[0] != '+') by {
        assert(!('0' <= "wtime"@[0] <= '9'));
    }
    assert(!all_digits("btime"@) && "btime"@[0] != '+') by {
        assert(!('0' <= "btime"@[0] <= '9'));
    }
    assert(!all_digits("winc"@) && "winc"@[0] != '+') by {
        assert(!('0' <= "winc"@[0] <= '9'));
    }
    assert(!all_digits("binc"@) && "binc"@[0] != '+') by {
        assert(!('0' <= "binc"@[0] <= '9'));
    }
}

proof fn lemma_other_side_value(words: Seq<Seq<char>>, key: Seq<char>)
    ensures
        value_after(other_side_words(words), other_side_word(key)) == value_after(words, key),
{
    lemma_side_words();
    let sw = other_side_words(words);
    let sk = other_side_word(key);
    assert(other_side_word(sk) == key);
    assert forall|w: Seq<char>| #[trigger] other_side_word(w) == sk implies w == key by {
        assert(other_side_word(other_side_word(w)) == w);
    }
    assert forall|i: int| first_at(sw, sk, i) <==> first_at(words, key, i) by {
        if 0 <= i < words.len() {
            assert(sw[i] == other_side_word(words[i]));
            assert forall|j: int| 0 <= j < i implies (sw[j] != sk <==> words[j] != key) by {
                assert(sw[j] == other_side_word(words[j]));
            }
        }
    }
    if exists|i: int| first_at(words, key, i) {
        let i = choose|i: int| first_at(words, key, i);
        let i2 = choose|i: int| first_at(sw, sk, i);
        assert(first_at(sw, sk, i));
        lemma_first_unique(sw, sk, i, i2);
        if i + 1 < words.len() {
            let w = words[i + 1];
            assert(sw[i + 1] == other_side_word(w));
            assert(other_side_word(w) == w || spec_parse_u64(other_side_word(w)) == spec_parse_u64(w));
        }
    }
}

/// The budget does not favour a colour: Black's budget on a `go` line is White's budget on
/// the same line with `wtime`/`btime` and `winc`/`binc` exchanged, and the other way round.
pub proof fn lemma_budget_colour_symmetry(words: Seq<Seq<char>>, white_to_move: bool)
    ensures
        spec_think_time(words, !white_to_move) == spec_think_time(other_side_words(words), white_to_move),
{
    lemma_side_words();
    lemma_other_side_value(words, "movetime"@);
    lemma_other_side_value(words, "wtime"@);
    lemma_other_side_value(words, "btime"@);
    lemma_other_side_value(words, "winc"@);
    lemma_other_side_value(words, "binc"@);
    assert(other_side_word("movetime"@) == "movetime"@);
}

/// Whether the raw budget can be computed in 64 bits.
pub open spec fn budget_fits(words: Seq<Seq<char>>, white_to_move: bool) -> bool {
    raw_budget(words, white_to_move) <= u64::MAX
}

/// Whether `think_time` can compute the budget of these `go` arguments in 64 bits.
pub fn think_time_fits(args: &[&str], white_to_move: bool) -> (b: bool)
    ensures
        b == budget_fits(words_of(args@), white_to_move),
{
    match arg_value(args, "movetime") {
        Some(_) => true,
        None => {
            let t = if white_to_move {
                arg_value(args, "wtime")
            } else {
                arg_value(args, "btime")
            };
            let inc = if white_to_move {
                arg_value(args, "winc")
            } else {
                arg_value(args, "binc")
            };
            match t {
                None => true,
                Some(t) => match inc {
                    None => true,
                    Some(i) => i <= u64::MAX - t / 30,
                },
            }
        },
    }
}

/// Picks a time budget in milliseconds from `go` arguments, always under the 5 s/move rule.
pub fn think_time(args: &[&str], white_to_move: bool) -> (ms: u64)
    requires
        budget_fits(words_of(args@), white_to_move),
    ensures
        ms == spec_think_time(words_of(args@), white_to_move),
        10 <= ms <= 4900,
{
    let ms = match arg_value(args, "movetime") {
        Some(mt) => mt,
        None => {
            let t = if white_to_move {
                arg_value(args, "wtime")
            } else {
                arg_value(args, "btime")
            };
            let inc = if white_to_move {
                arg_value(args, "winc")
            } else {
                arg_value(args, "binc")
            };
            match t {
                None => 5000,
                Some(t) => t / 30 + match inc {
                    Some(i) => i,
                    None => 0,
                },
            }
        },
    };
    let capped = if ms < 5000 {
        ms
    } else {
        5000
    };
    let less = capped.saturating_sub(100);
    if less > 10 {
        less
    } else {
        10
    }
}

/// Where the FEN of a `position` command ends: at `moves`, or at the end.
pub open spec fn fen_end(words: Seq<Seq<char>>) -> int {
    if exists|i: int| first_at(words, "moves"@, i) {
        choose|i: int| first_at(words, "moves"@, i)
    } else {
        words.len() as int
    }
}

/// The position set up by `fen <FEN>`, when the words from the second up to `end`,
/// joined by spaces, are a FEN record of a legal standard-chess position.
pub open spec fn fen_setup(words: Seq<Seq<char>>, end: int) -> Option<Chess> {
    match fen_parse_of(joined(words.subrange(1, end))) {
        Some(f) => fen_position_of(f),
        None => None,
    }
}

/// Whether the UCI move `w` is legal in `p` and leads to `q`.
pub open spec fn steps_to(w: Seq<char>, p: Chess, q: Chess) -> bool {
    match uci_parse_of(w) {
        Some(u) => match uci_move_of(u, p) {
            Some(m) => q == played(p, m),
            None => false,
        },
        None => false,
    }
}

/// Whether the UCI move `w` does not parse or is not legal in `p`.
pub open spec fn step_fails(w: Seq<char>, p: Chess) -> bool {
    match uci_parse_of(w) {
        Some(u) => uci_move_of(u, p) is None,
        None => true,
    }
}

/// `ps` are the positions reached by the moves after `moves` (at `i`): each follows from
/// the one before by the next move, and the move after the last one, if any, fails.
pub open spec fn moves_followed(words: Seq<Seq<char>>, i: int, ps: Seq<Chess>) -> bool {
    &&& forall|k: int| 0 <= k < ps.len() - 1 ==> steps_to(words[i + 1 + k], #[trigger] ps[k], ps[k + 1])
    &&& i + ps.len() < words.len() ==> step_fails(words[i + ps.len()], ps.last())
}

/// `ps` are the positions that a `position` command with `words` passes through, ending in
/// `last`, and `hist` their hashes: the first is the FEN's position when the command gives
/// a FEN of a legal position, and each next one follows by the next UCI move after
/// `moves`, until one does not parse or is not legal.
pub open spec fn records(words: Seq<Seq<char>>, last: Chess, hist: Seq<u64>, ps: Seq<Chess>) -> bool {
    &&& ps.len() == hist.len()
    &&& ps.len() >= 1
    &&& ps.last() == last
    &&& forall|k: int| 0 <= k < ps.len() ==> hist[k] == zobrist_of(#[trigger] ps[k])
    &&& (words.len() > 0 && words[0] == "fen"@ && fen_setup(words, fen_end(words)) is Some) ==> ps[0]
        == fen_setup(words, fen_end(words))->0
    &&& !(words.len() > 0 && words[0] == "fen"@ && fen_setup(words, fen_end(words)) is Some) ==> is_start(ps[0])
    &&& forall|i: int| first_at(words, "moves"@, i) ==> moves_followed(words, i, ps)
}

/// Returns the position plus the hashes of every position reached on the way (root last).
/// `args` are the words after `position`: `startpos` or `fen <FEN>`, optionally followed by
/// `moves` and UCI moves, which are played until one does not parse or is not legal. A FEN
/// that does not parse or is not a legal position leaves the starting position.
pub fn parse_position(args: &[&str]) -> (r: (Chess, Vec<u64>))
    ensures
        r.1@.len() >= 1,
        (forall|j: int| 0 <= j < args@.len() ==> words_of(args@)[j] != "moves"@) ==> r.1@.len()
            == 1,
        forall|i: int| first_at(words_of(args@), "moves"@, i) ==> r.1@.len() <= args@.len() - i,
        exists|ps: Seq<Chess>| #[trigger] records(words_of(args@), r.0, r.1@, ps),
{
    let ghost words = words_of(args@);
    let mut pos = start_position();
    let moves_at = find_word(args, "moves");
    proof {
        match moves_at {
            Some(i) => {
                assert forall|k: int| first_at(words, "moves"@, k) implies k == i by {
                    lemma_first_unique(words, "moves"@, i as int, k);
                }
                assert(fen_end(words) == i);
            },
            None => {
                assert(fen_end(words) == words.len());
            },
        }
    }
    if args.len() > 0 && same_word(args[0], "fen") {
        let end = match moves_at {
            Some(i) => i,
            None => args.len(),
        };
        proof {
            reveal_strlit("fen");
            reveal_strlit("moves");
            if end == 0 {
                assert(words_of(args@)[0] == "moves"@);
                assert("fen"@.len() != "moves"@.len());
            }
        }
        let part = vstd::slice::slice_subrange(args, 1, end);
        proof {
            assert(words_of(part@) =~= words.subrange(1, end as int));
        }
        let fen_str = join_words(part);
        if let Some(fen) = parse_fen(fen_str.as_str()) {
            if let Some(p) = fen_position(fen) {
                pos = p;
            }
        }
    }
    let ghost p0 = pos;
    assert(args@.len() > 0 && words[0] == "fen"@ && fen_setup(words, fen_end(words)) is Some ==> p0
        == fen_setup(words, fen_end(words))->0);
    assert(!(args@.len() > 0 && words[0] == "fen"@ && fen_setup(words, fen_end(words)) is Some) ==> is_start(p0));
    let ghost mut ps: Seq<Chess> = seq![pos];
    let mut history: Vec<u64> = Vec::new();
    history.push(hash(&pos));
    match moves_at {
        None => {},
        Some(i) => {
            let mut j = i + 1;
            while j < args.len()
                invariant
                    i < j <= args@.len(),
                    words == words_of(args@),
                    history@.len() == j - i,
                    ps.len() == j - i,
                    ps.last() == pos,
                    ps[0] == p0,
                    forall|k: int| 0 <= k < ps.len() ==> history@[k] == zobrist_of(#[trigger] ps[k]),
                    forall|k: int|
                        0 <= k < ps.len() - 1 ==> steps_to(words[i + 1 + k], #[trigger] ps[k], ps[k + 1]),
                ensures
                    ps[0] == p0,
                    history@.len() == j - i,
                    ps.len() == j - i,
                    ps.last() == pos,
                    forall|k: int| 0 <= k < ps.len() ==> history@[k] == zobrist_of(#[trigger] ps[k]),
                    forall|k: int|
                        0 <= k < ps.len() - 1 ==> steps_to(words[i + 1 + k], #[trigger] ps[k], ps[k + 1]),
                    j < args@.len() ==> step_fails(words[j as int], pos),
                decreases args@.len() - j,
            {
                let u = match parse_uci_move(args[j]) {
                    Some(u) => u,
                    None => break,
                };
                let m = match uci_to_move(&u, &pos) {
                    Some(m) => m,
                    None => break,
                };
                let ghost before = pos;
                play_move(&mut pos, &m);
                history.push(hash(&pos));
                proof {
                    assert(steps_to(words[j as int], before, pos));
                    ps = ps.push(pos);
                }
                j += 1;
            }
        },
    }
    proof {
        assert(ps.len() == history@.len());
        assert(ps[0] == p0);
        assert forall|i: int| first_at(words, "moves"@, i) implies moves_followed(words, i, ps) by {
            if let Some(i0) = moves_at {
                lemma_first_unique(words, "moves"@, i0 as int, i);
            } else {
                assert(words[i] == "moves"@);
            }
        }
        assert(records(words, pos, history@, ps));
    }
    let r = (pos, history);
    assert(records(words_of(args@), r.0, r.1@, ps));
    r
}

/// The commands of the UCI protocol that the engine answers.
#[derive(Clone, Copy, PartialEq, Eq, Debug, Structural)]
pub enum Command {
    Uci,
    IsReady,
    NewGame,
    Position,
    Go,
    Quit,
    /// Anything else, including an empty line: ignored.
    Other,
}

/// The command that a line's first word names.
pub open spec fn spec_command(words: Seq<Seq<char>>) -> Command {
    if words.len() == 0 {
        Command::Other
    } else if words[0] == "uci"@ {
        Command::Uci
    } else if words[0] == "isready"@ {
        Command::IsReady
    } else if words[0] == "ucinewgame"@ {
        Command::NewGame
    } else if words[0] == "position"@ {
        Command::Position
    } else if words[0] == "go"@ {
        Command::Go
    } else if words[0] == "quit"@ {
        Command::Quit
    } else {
        Command::Other
    }
}

/// The command that a line's first word names.
pub fn command_of(parts: &[&str]) -> (c: Command)
    ensures
        c == spec_command(words_of(parts@)),
{
    if parts.len() == 0 {
        Command::Other
    } else if same_word(parts[0], "uci") {
        Command::Uci
    } else if same_word(parts[0], "isready") {
        Command::IsReady
    } else if same_word(parts[0], "ucinewgame") {
        Command::NewGame
    } else if same_word(parts[0], "position") {
        Command::Position
    } else if same_word(parts[0], "go") {
        Command::Go
    } else if same_word(parts[0], "quit") {
        Command::Quit
    } else {
        Command::Other
    }
}

/// The contempt for a search from a root whose static evaluation is `root_eval`:
/// if the engine is clearly lost anyway (below -300), a draw is welcome.
pub fn root_contempt(root_eval: i32) -> (c: i32)
    ensures
        c == if root_eval < -300 {
            0
        } else {
            CONTEMPT
        },
{
    if root_eval < -300 {
        0
    } else {
        CONTEMPT
    }
}

} // verus!
