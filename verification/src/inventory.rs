//! Parsing free-form inventory text into owned-ingredient names: one name
//! per non-blank line, with quantity annotations such as `"Torchbug Thorax
//! (3)"` stripped.  Each line first loses leading and trailing numeric
//! characters and parentheses, then leading and trailing whitespace; lines
//! left empty are dropped.  The function is total and order-preserving.

use vstd::prelude::*;
use vstd::string::*;

use crate::strings::{char_is_numeric, char_is_whitespace, is_numeric_char, is_whitespace_char};

verus! {

/// One owned-ingredient name from the inventory text.
pub struct InventoryItem {
    pub name: String,
}

/// The player's inventory: the parsed, ordered list of owned names.
pub struct Inventory {
    pub items: Vec<InventoryItem>,
}

/// The names of the items, in order.
pub open spec fn item_names(items: Seq<InventoryItem>) -> Seq<Seq<char>> {
    items.map_values(|it: InventoryItem| it.name@)
}

// ---------------------------------------------------------------------------
// Trimming
// ---------------------------------------------------------------------------

/// Characters stripped from line ends before whitespace trimming: numeric
/// characters and the parentheses of quantity annotations.
pub open spec fn stripped_char(c: char) -> bool {
    is_numeric_char(c) || c == '(' || c == ')'
}

/// The end-stripping predicate, as a single named function value.
pub open spec fn strip_pred() -> spec_fn(char) -> bool {
    |c: char| stripped_char(c)
}

/// The whitespace predicate, as a single named function value.
pub open spec fn ws_pred() -> spec_fn(char) -> bool {
    |c: char| is_whitespace_char(c)
}

/// Drop leading characters satisfying `p`.
pub open spec fn trim_front(s: Seq<char>, p: spec_fn(char) -> bool) -> Seq<char>
    decreases s.len(),
{
    if s.len() > 0 && p(s[0]) {
        trim_front(s.drop_first(), p)
    } else {
        s
    }
}

/// Drop trailing characters satisfying `p`.
pub open spec fn trim_back(s: Seq<char>, p: spec_fn(char) -> bool) -> Seq<char>
    decreases s.len(),
{
    if s.len() > 0 && p(s.last()) {
        trim_back(s.drop_last(), p)
    } else {
        s
    }
}

/// Drop characters satisfying `p` from both ends.
pub open spec fn trim_both(s: Seq<char>, p: spec_fn(char) -> bool) -> Seq<char> {
    trim_back(trim_front(s, p), p)
}

/// What one raw line contributes: quantity characters stripped from the
/// ends, then whitespace trimmed.
pub open spec fn clean_line(line: Seq<char>) -> Seq<char> {
    trim_both(trim_both(line, strip_pred()), ws_pred())
}

// ---------------------------------------------------------------------------
// Splitting on newlines
// ---------------------------------------------------------------------------

/// The position of the first newline of `s`, or `s.len()` when there is none.
pub open spec fn first_nl(s: Seq<char>) -> nat
    decreases s.len(),
{
    if s.len() == 0 {
        0
    } else if s[0] == '\n' {
        0
    } else {
        1 + first_nl(s.drop_first())
    }
}

proof fn lemma_first_nl_unique(s: Seq<char>, k: int)
    requires
        0 <= k <= s.len(),
        forall|j: int| 0 <= j < k ==> s[j] != '\n',
        k < s.len() ==> s[k] == '\n',
    ensures
        first_nl(s) == k,
    decreases s.len(),
{
    if s.len() == 0 {
    } else if s[0] == '\n' {
        assert(k == 0);
    } else {
        assert(k > 0);
        assert(forall|j: int| 0 <= j < s.len() - 1 ==> s.drop_first()[j] == s[j + 1]);
        lemma_first_nl_unique(s.drop_first(), k - 1);
    }
}

/// The parsed inventory of a raw text: the cleaned, non-empty lines, in
/// order of appearance.
pub open spec fn spec_parse_inventory(s: Seq<char>) -> Seq<Seq<char>>
    decreases s.len(),
{
    let n = first_nl(s);
    let cleaned = clean_line(s.take(n as int));
    let head: Seq<Seq<char>> = if cleaned.len() > 0 {
        seq![cleaned]
    } else {
        Seq::empty()
    };
    if n < s.len() {
        head + spec_parse_inventory(s.skip(n + 1int))
    } else {
        head
    }
}

// ---------------------------------------------------------------------------
// Executable trimming: narrow an index window instead of copying
// ---------------------------------------------------------------------------

/// Narrow `[a0, b0)` past leading and trailing quantity characters.
fn strip_marks_bounds(s: &str, len: usize, a0: usize, b0: usize) -> (r: (usize, usize))
    requires
        len == s@.len(),
        a0 <= b0 <= len,
    ensures
        ({
            let (a, b) = r;
            &&& a0 <= a <= b <= b0
            &&& s@.subrange(a as int, b as int) == trim_both(
                s@.subrange(a0 as int, b0 as int),
                strip_pred(),
            )
        }),
{
    let mut a = a0;
    let mut b = b0;
    loop
        invariant
            len == s@.len(),
            a0 <= a <= b0 <= len,
            b == b0,
            trim_front(s@.subrange(a0 as int, b0 as int), strip_pred()) == trim_front(
                s@.subrange(a as int, b0 as int),
                strip_pred(),
            ),
        ensures
            a0 <= a <= b0,
            trim_front(s@.subrange(a0 as int, b0 as int), strip_pred()) == s@.subrange(a as int, b0 as int),
        decreases b0 - a,
    {
        if a >= b0 {
            proof {
                assert(s@.subrange(a as int, b0 as int).len() == 0);
            }
            break;
        }
        let c = s.get_char(a);
        if !(char_is_numeric(c) || c == '(' || c == ')') {
            proof {
                assert(s@.subrange(a as int, b0 as int)[0] == s@[a as int]);
            }
            break;
        }
        proof {
            let t = s@.subrange(a as int, b0 as int);
            assert(t[0] == s@[a as int]);
            assert(strip_pred()(t[0]));
            assert(t.drop_first() =~= s@.subrange(a + 1, b0 as int));
        }
        a += 1;
    }
    proof {
        assert(trim_both(s@.subrange(a0 as int, b0 as int), strip_pred()) == trim_back(
            s@.subrange(a as int, b0 as int),
            strip_pred(),
        ));
    }
    loop
        invariant
            len == s@.len(),
            a0 <= a <= b <= b0 <= len,
            trim_back(s@.subrange(a as int, b0 as int), strip_pred()) == trim_back(
                s@.subrange(a as int, b as int),
                strip_pred(),
            ),
        ensures
            a <= b <= b0,
            trim_back(s@.subrange(a as int, b0 as int), strip_pred()) == s@.subrange(a as int, b as int),
        decreases b - a,
    {
        if b <= a {
            proof {
                assert(s@.subrange(a as int, b as int).len() == 0);
            }
            break;
        }
        let c = s.get_char(b - 1);
        if !(char_is_numeric(c) || c == '(' || c == ')') {
            proof {
                assert(s@.subrange(a as int, b as int).last() == s@[b - 1]);
            }
            break;
        }
        proof {
            let t = s@.subrange(a as int, b as int);
            assert(t.last() == s@[b - 1]);
            assert(strip_pred()(t.last()));
            assert(t.drop_last() =~= s@.subrange(a as int, b - 1));
        }
        b -= 1;
    }
    (a, b)
}

/// Narrow `[a0, b0)` past leading and trailing whitespace.
pub(crate) fn strip_ws_bounds(s: &str, len: usize, a0: usize, b0: usize) -> (r: (usize, usize))
    requires
        len == s@.len(),
        a0 <= b0 <= len,
    ensures
        ({
            let (a, b) = r;
            &&& a0 <= a <= b <= b0
            &&& s@.subrange(a as int, b as int) == trim_both(
                s@.subrange(a0 as int, b0 as int),
                ws_pred(),
            )
        }),
{
    let mut a = a0;
    let mut b = b0;
    loop
        invariant
            len == s@.len(),
            a0 <= a <= b0 <= len,
            b == b0,
            trim_front(s@.subrange(a0 as int, b0 as int), ws_pred()) == trim_front(
                s@.subrange(a as int, b0 as int),
                ws_pred(),
            ),
        ensures
            a0 <= a <= b0,
            trim_front(s@.subrange(a0 as int, b0 as int), ws_pred()) == s@.subrange(a as int, b0 as int),
        decreases b0 - a,
    {
        if a >= b0 {
            proof {
                assert(s@.subrange(a as int, b0 as int).len() == 0);
            }
            break;
        }
        let c = s.get_char(a);
        if !char_is_whitespace(c) {
            proof {
                assert(s@.subrange(a as int, b0 as int)[0] == s@[a as int]);
            }
            break;
        }
        proof {
            let t = s@.subrange(a as int, b0 as int);
            assert(t[0] == s@[a as int]);
            assert(ws_pred()(t[0]));
            assert(t.drop_first() =~= s@.subrange(a + 1, b0 as int));
        }
        a += 1;
    }
    proof {
        assert(trim_both(s@.subrange(a0 as int, b0 as int), ws_pred()) == trim_back(
            s@.subrange(a as int, b0 as int),
            ws_pred(),
        ));
    }
    loop
        invariant
            len == s@.len(),
            a0 <= a <= b <= b0 <= len,
            trim_back(s@.subrange(a as int, b0 as int), ws_pred()) == trim_back(
                s@.subrange(a as int, b as int),
                ws_pred(),
            ),
        ensures
            a <= b <= b0,
            trim_back(s@.subrange(a as int, b0 as int), ws_pred()) == s@.subrange(a as int, b as int),
        decreases b - a,
    {
        if b <= a {
            proof {
                assert(s@.subrange(a as int, b as int).len() == 0);
            }
            break;
        }
        let c = s.get_char(b - 1);
        if !char_is_whitespace(c) {
            proof {
                assert(s@.subrange(a as int, b as int).last() == s@[b - 1]);
            }
            break;
        }
        proof {
            let t = s@.subrange(a as int, b as int);
            assert(t.last() == s@[b - 1]);
            assert(ws_pred()(t.last()));
            assert(t.drop_last() =~= s@.subrange(a as int, b - 1));
        }
        b -= 1;
    }
    (a, b)
}

// ---------------------------------------------------------------------------
// The parser
// ---------------------------------------------------------------------------

/// Parse raw inventory text into the ordered list of owned names: one per
/// non-blank line, quantity annotations and surrounding whitespace stripped.
pub fn parse_inventory(inventory: &str) -> (r: Inventory)
    ensures
        item_names(r.items@) == spec_parse_inventory(inventory@),
{
    let len = inventory.unicode_len();
    let ghost whole = spec_parse_inventory(inventory@);
    let mut items: Vec<InventoryItem> = Vec::new();
    let mut pos: usize = 0;
    proof {
        assert(inventory@.skip(0) =~= inventory@);
        assert(item_names(items@) + spec_parse_inventory(inventory@) =~= whole);
    }
    loop
        invariant_except_break
            item_names(items@) + spec_parse_inventory(inventory@.skip(pos as int)) == whole,
        invariant
            len == inventory@.len(),
            0 <= pos <= len,
            whole == spec_parse_inventory(inventory@),
        ensures
            item_names(items@) == whole,
        decreases len - pos,
    {
        let ghost tail = inventory@.skip(pos as int);
        // find the end of the current line
        let mut e = pos;
        while e < len && inventory.get_char(e) != '\n'
            invariant
                len == inventory@.len(),
                pos <= e <= len,
                forall|k: int| pos <= k < e ==> inventory@[k] != '\n',
            decreases len - e,
        {
            e += 1;
        }
        proof {
            assert(forall|j: int| 0 <= j < e - pos ==> tail[j] == inventory@[pos + j]);
            if e < len {
                assert(tail[e - pos] == inventory@[e as int]);
            }
            lemma_first_nl_unique(tail, e - pos);
        }
        // trim the line
        let (a1, b1) = strip_marks_bounds(inventory, len, pos, e);
        let (lo, hi) = strip_ws_bounds(inventory, len, a1, b1);
        proof {
            assert(tail.take(e - pos) =~= inventory@.subrange(pos as int, e as int));
        }
        let ghost before = items@;
        if lo < hi {
            let name = inventory.substring_char(lo, hi).to_owned();
            items.push(InventoryItem { name });
            proof {
                assert(item_names(items@) =~= item_names(before).push(
                    inventory@.subrange(lo as int, hi as int),
                ));
            }
        }
        proof {
            let cleaned = clean_line(tail.take(e - pos));
            let head: Seq<Seq<char>> = if cleaned.len() > 0 {
                seq![cleaned]
            } else {
                Seq::<Seq<char>>::empty()
            };
            assert(cleaned == inventory@.subrange(lo as int, hi as int));
            assert(item_names(items@) =~= item_names(before) + head);
            if e < len {
                assert(spec_parse_inventory(tail) == head + spec_parse_inventory(
                    tail.skip(e - pos + 1),
                ));
                assert(tail.skip(e - pos + 1) =~= inventory@.skip(e + 1));
                assert(item_names(items@) + spec_parse_inventory(inventory@.skip(e + 1)) =~= whole);
            } else {
                assert(spec_parse_inventory(tail) == head);
                assert(item_names(items@) =~= whole);
            }
        }
        if e == len {
            break;
        }
        pos = e + 1;
    }
    Inventory { items }
}

} // verus!
