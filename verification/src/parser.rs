//! Turning raw input text into a problem instance. The format is line
//! based ASCII: the first line holds the item count; every further line
//! holds one customer's entries, each written as an item number followed
//! by `M` (matte) or `G` (gloss). Digits accumulate until a letter flushes
//! them as an item number; any other byte is skipped; a letter with no
//! pending digits, a letter other than `M`/`G`, or a number too large for
//! the machine makes the input invalid, as does an item number outside
//! `[1, item_count]`.

use crate::types::{
    essentials_of, keys_in_range, pref_insert, CustomerPreferences, Finish, Specification,
};
use vstd::prelude::*;

verus! {

/// ASCII whitespace: space, tab, line feed, vertical tab, form feed,
/// carriage return.
pub open spec fn is_ws(b: u8) -> bool {
    b == 32 || b == 9 || b == 10 || b == 11 || b == 12 || b == 13
}

/// ASCII decimal digit.
pub open spec fn is_digit(b: u8) -> bool {
    48 <= b && b <= 57
}

/// ASCII letter.
pub open spec fn is_letter(b: u8) -> bool {
    (65 <= b && b <= 90) || (97 <= b && b <= 122)
}

/// Position of the first line feed at or after `i`, or the input's length
/// when there is none.
pub open spec fn line_end(s: Seq<u8>, i: int) -> int
    decreases s.len() - i,
{
    if i < 0 || i >= s.len() {
        s.len() as int
    } else if s[i] == 10 {
        i
    } else {
        line_end(s, i + 1)
    }
}

/// First position at or after `i` (and before `end`) holding a
/// non-whitespace byte, or `end`.
pub open spec fn skip_ws(s: Seq<u8>, i: int, end: int) -> int
    decreases end - i,
{
    if i < 0 || i >= end || end > s.len() {
        i
    } else if is_ws(s[i]) {
        skip_ws(s, i + 1, end)
    } else {
        i
    }
}

/// Last position after `i` (and at or before `j`) such that everything
/// from it up to `j` is whitespace, scanning backwards from `j`.
pub open spec fn skip_ws_back(s: Seq<u8>, i: int, j: int) -> int
    decreases j,
{
    if i < 0 || j <= i || j > s.len() {
        j
    } else if is_ws(s[j - 1]) {
        skip_ws_back(s, i, j - 1)
    } else {
        j
    }
}

/// Value of the decimal digits at positions `[a, b)`, most significant
/// first. Positions holding non-digits contribute nothing.
pub open spec fn digits_val(s: Seq<u8>, a: int, b: int) -> nat
    decreases b - a,
{
    if b <= a || a < 0 || b > s.len() {
        0
    } else {
        digits_val(s, a, b - 1) * 10 + (if is_digit(s[b - 1]) {
            (s[b - 1] - 48) as nat
        } else {
            0
        })
    }
}

/// A digit string's value only grows as more digits are read.
pub proof fn lemma_digits_val_mono(s: Seq<u8>, a: int, b1: int, b2: int)
    requires
        0 <= a <= b1 <= b2 <= s.len(),
    ensures
        digits_val(s, a, b1) <= digits_val(s, a, b2),
    decreases b2 - b1,
{
    if b1 < b2 {
        lemma_digits_val_mono(s, a, b1, b2 - 1);
    }
}

/// The item count read from the first line: after trimming whitespace from
/// both ends and allowing one leading `+`, the rest must be one or more
/// digits whose value fits the machine.
pub open spec fn spec_count(s: Seq<u8>) -> Option<nat> {
    let nl = line_end(s, 0);
    let a0 = skip_ws(s, 0, nl);
    let b = skip_ws_back(s, a0, nl);
    let a = if a0 < b && s[a0] == 43 {
        a0 + 1
    } else {
        a0
    };
    if a < b && (forall|j: int| a <= j < b ==> is_digit(#[trigger] s[j])) && digits_val(s, a, b)
        <= usize::MAX as nat {
        Some(digits_val(s, a, b))
    } else {
        None
    }
}

/// The customers' preference sets read from everything after the first
/// line, one pass over the bytes: `bufval`/`bufn` hold the value and count
/// of the digits read since the last flush, `map` the entries of the
/// current line, `prefs` the finished lines (empty lines contribute
/// nothing). A letter flushes the pending digits as an item number; `None`
/// marks invalid input.
pub open spec fn tok(
    s: Seq<u8>,
    i: int,
    bufval: nat,
    bufn: nat,
    map: Seq<(usize, Finish)>,
    prefs: Seq<Seq<(usize, Finish)>>,
) -> Option<Seq<Seq<(usize, Finish)>>>
    decreases s.len() - i,
{
    if i < 0 || i > s.len() {
        None
    } else if i == s.len() {
        Some(
            if map.len() > 0 {
                prefs.push(map)
            } else {
                prefs
            },
        )
    } else if s[i] == 10 {
        tok(
            s,
            i + 1,
            0,
            0,
            Seq::empty(),
            if map.len() > 0 {
                prefs.push(map)
            } else {
                prefs
            },
        )
    } else if is_digit(s[i]) {
        tok(s, i + 1, bufval * 10 + (s[i] - 48) as nat, bufn + 1, map, prefs)
    } else if is_letter(s[i]) {
        if bufn == 0 {
            None
        } else if bufval > usize::MAX as nat {
            None
        } else if s[i] == 77 {
            tok(s, i + 1, 0, 0, pref_insert(map, bufval as usize, Finish::Matte), prefs)
        } else if s[i] == 71 {
            tok(s, i + 1, 0, 0, pref_insert(map, bufval as usize, Finish::Gloss), prefs)
        } else {
            None
        }
    } else {
        tok(s, i + 1, bufval, bufn, map, prefs)
    }
}

/// Every entry of every parsed preference set names an item in
/// `[1, count]`, for a parsed pair of count and preference sets.
pub open spec fn parse_keys_ok(pr: (nat, Seq<Seq<(usize, Finish)>>)) -> bool {
    forall|c: int| 0 <= c < pr.1.len() ==> keys_in_range(#[trigger] pr.1[c], pr.0 as int)
}

/// What the whole input denotes: the item count from the first line and
/// the preference sets from the rest, or `None` for invalid text.
pub open spec fn spec_parse(s: Seq<u8>) -> Option<(nat, Seq<Seq<(usize, Finish)>>)> {
    match spec_count(s) {
        None => None,
        Some(count) => {
            let nl = line_end(s, 0);
            let start = if nl < s.len() {
                nl + 1
            } else {
                nl
            };
            match tok(s, start, 0, 0, Seq::empty(), Seq::empty()) {
                None => None,
                Some(prefs) => Some((count, prefs)),
            }
        },
    }
}

fn ws_byte(b: u8) -> (r: bool)
    ensures
        r == is_ws(b),
{
    b == 32 || b == 9 || b == 10 || b == 11 || b == 12 || b == 13
}

fn digit_byte(b: u8) -> (r: bool)
    ensures
        r == is_digit(b),
{
    48 <= b && b <= 57
}

fn letter_byte(b: u8) -> (r: bool)
    ensures
        r == is_letter(b),
{
    (65 <= b && b <= 90) || (97 <= b && b <= 122)
}

/// Parse input text into a problem instance. Returns `None` exactly when
/// the text is invalid or some entry names an item outside
/// `[1, item_count]`; a returned instance is exactly what the text
/// denotes, with its mandatory constraints derived from the singleton
/// preference sets.
pub fn parse(input: &[u8]) -> (r: Option<Specification>)
    ensures
        match (r, spec_parse(input@)) {
            (Some(sp), Some(pr)) => {
                &&& sp.num_colors as nat == pr.0
                &&& sp.prefs() == pr.1
                &&& sp.essentials@ == essentials_of(pr.1)
                &&& sp.wf()
            },
            (None, Some(pr)) => !parse_keys_ok(pr),
            (None, None) => true,
            (Some(sp), None) => false,
        },
{
    let ghost s = input@;
    let n = input.len();

    // First line: find its end.
    let mut nl: usize = 0;
    while nl < n && input[nl] != 10
        invariant
            n == s.len(),
            s == input@,
            nl <= n,
            line_end(s, 0) == line_end(s, nl as int),
        decreases n - nl,
    {
        nl = nl + 1;
    }
    proof {
        assert(line_end(s, 0) == nl as int);
    }

    // Trim whitespace from both ends of the first line.
    let mut a: usize = 0;
    while a < nl && ws_byte(input[a])
        invariant
            n == s.len(),
            s == input@,
            a <= nl <= n,
            skip_ws(s, 0, nl as int) == skip_ws(s, a as int, nl as int),
        decreases nl - a,
    {
        a = a + 1;
    }
    proof {
        assert(skip_ws(s, 0, nl as int) == a as int);
    }
    let mut b2: usize = nl;
    while b2 > a && ws_byte(input[b2 - 1])
        invariant
            n == s.len(),
            s == input@,
            a <= b2 <= nl <= n,
            skip_ws_back(s, a as int, nl as int) == skip_ws_back(s, a as int, b2 as int),
        decreases b2,
    {
        b2 = b2 - 1;
    }
    proof {
        assert(skip_ws_back(s, a as int, nl as int) == b2 as int);
    }

    // One optional leading plus sign, then at least one digit.
    let a2: usize = if a < b2 && input[a] == 43 {
        a + 1
    } else {
        a
    };
    if a2 >= b2 {
        proof {
            assert(spec_count(s) is None);
        }
        return None;
    }
    let mut val: usize = 0;
    let mut j: usize = a2;
    while j < b2
        invariant
            n == s.len(),
            s == input@,
            line_end(s, 0) == nl as int,
            skip_ws(s, 0, nl as int) == a as int,
            skip_ws_back(s, a as int, nl as int) == b2 as int,
            a2 as int == (if a < b2 && s[a as int] == 43 {
                a + 1
            } else {
                a as int
            }),
            a <= a2 < b2 <= nl <= n,
            a2 <= j <= b2,
            forall|t: int| a2 <= t < j ==> is_digit(#[trigger] s[t]),
            val as nat == digits_val(s, a2 as int, j as int),
        decreases b2 - j,
    {
        let d = input[j];
        if !digit_byte(d) {
            proof {
                assert(spec_count(s) is None);
            }
            return None;
        }
        let wide: u128 = val as u128 * 10 + (d - 48) as u128;
        proof {
            assert(digits_val(s, a2 as int, j + 1) == digits_val(s, a2 as int, j as int) * 10 + (
            s[j as int] - 48) as nat);
        }
        if wide > usize::MAX as u128 {
            proof {
                lemma_digits_val_mono(s, a2 as int, j + 1, b2 as int);
                assert(digits_val(s, a2 as int, b2 as int) > usize::MAX as nat);
                assert(spec_count(s) is None);
            }
            return None;
        }
        val = wide as usize;
        j = j + 1;
    }
    let num_colors = val;
    proof {
        assert(spec_count(s) == Some(num_colors as nat));
    }

    // Tokenize the remaining lines.
    let start: usize = if nl < n {
        nl + 1
    } else {
        nl
    };
    let mut i: usize = start;
    let mut cur: usize = 0;
    let mut over = false;
    let mut pending = false;
    let ghost mut bufval: nat = 0;
    let ghost mut bufn: nat = 0;
    let mut map = CustomerPreferences::new();
    let mut prefs: Vec<CustomerPreferences> = Vec::new();
    proof {
        assert(prefs@.map_values(|p: CustomerPreferences| p@) =~= Seq::<
            Seq<(usize, Finish)>,
        >::empty());
    }
    while i < n
        invariant
            n == s.len(),
            s == input@,
            spec_count(s) == Some(num_colors as nat),
            line_end(s, 0) == nl as int,
            nl <= n,
            start as int == (if nl < n {
                nl + 1
            } else {
                nl as int
            }),
            start <= i <= n,
            !over ==> bufval == cur as nat,
            over ==> bufval > usize::MAX as nat,
            pending <==> bufn != 0,
            tok(s, start as int, 0, 0, Seq::empty(), Seq::empty()) == tok(
                s,
                i as int,
                bufval,
                bufn,
                map@,
                prefs@.map_values(|p: CustomerPreferences| p@),
            ),
        decreases n - i,
    {
        let ghost pview = prefs@.map_values(|p: CustomerPreferences| p@);
        let b = input[i];
        if b == 10 {
            if map.len() > 0 {
                let ghost mv = map@;
                prefs.push(map);
                map = CustomerPreferences::new();
                proof {
                    assert(prefs@.map_values(|p: CustomerPreferences| p@) =~= pview.push(mv));
                }
            } else {
                proof {
                    assert(map@ =~= Seq::<(usize, Finish)>::empty());
                }
            }
            cur = 0;
            over = false;
            pending = false;
            proof {
                bufval = 0;
                bufn = 0;
            }
        } else if digit_byte(b) {
            if !over {
                let wide: u128 = cur as u128 * 10 + (b - 48) as u128;
                if wide > usize::MAX as u128 {
                    over = true;
                } else {
                    cur = wide as usize;
                }
            }
            pending = true;
            proof {
                bufval = bufval * 10 + (b - 48) as nat;
                bufn = bufn + 1;
            }
        } else if letter_byte(b) {
            if !pending {
                return None;
            }
            if over {
                return None;
            }
            if b == 77 {
                map.insert(cur, Finish::Matte);
            } else if b == 71 {
                map.insert(cur, Finish::Gloss);
            } else {
                return None;
            }
            cur = 0;
            over = false;
            pending = false;
            proof {
                bufval = 0;
                bufn = 0;
            }
        }
        i = i + 1;
    }
    if map.len() > 0 {
        let ghost pview = prefs@.map_values(|p: CustomerPreferences| p@);
        let ghost mv = map@;
        prefs.push(map);
        proof {
            assert(prefs@.map_values(|p: CustomerPreferences| p@) =~= pview.push(mv));
        }
    }
    let ghost pv = prefs@;
    let ghost fview = pv.map_values(|p: CustomerPreferences| p@);
    proof {
        assert(spec_parse(s) == Some((num_colors as nat, fview)));
    }
    match Specification::new(num_colors, prefs) {
        Some(sp) => {
            proof {
                assert(sp.prefs() =~= fview);
            }
            Some(sp)
        },
        None => {
            proof {
                let c = choose|c: int|
                    0 <= c < pv.len() && !keys_in_range((#[trigger] pv[c])@, num_colors as int);
                assert(fview[c] == pv[c]@);
                assert(!keys_in_range(fview[c], num_colors as int));
                let pair = (num_colors as nat, fview);
                assert(pair.1 == fview && pair.0 == num_colors as nat);
                assert(0 <= c < pair.1.len() && !keys_in_range(pair.1[c], pair.0 as int));
                assert(!parse_keys_ok(pair));
            }
            None
        },
    }
}

} // verus!
