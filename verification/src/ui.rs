//! Pure decisions of the search overlay: reading the query typed into the box,
//! detecting Chinese input, and moving keyboard focus through the results.
use vstd::prelude::*;
use crate::text::{chars_of, concat, lemma_trim_idempotent, slice_chars, string_of, trim, trim_chars};

verus! {

/// Whether `c` is a CJK unified ideograph (U+4E00..=U+9FFF).
pub open spec fn is_cjk(c: char) -> bool {
    '\u{4E00}' <= c && c <= '\u{9FFF}'
}

/// `c` is a CJK unified ideograph.
pub fn cjk(c: char) -> (r: bool)
    ensures
        r == is_cjk(c),
{
    '\u{4E00}' <= c && c <= '\u{9FFF}'
}

/// How the overlay reads its (already trimmed, lower-cased) input: a leading
/// `!` asks for an exact-only lookup of the rest, trimmed.
pub open spec fn parsed_query(raw: Seq<char>) -> (Seq<char>, bool) {
    if raw.len() > 0 && raw[0] == '!' {
        (trim(raw.drop_first()), true)
    } else {
        (raw, false)
    }
}

/// Splits the overlay input into the search key and whether exact mode was
/// requested: `!apple` gives `("apple", true)`, `apple` gives
/// `("apple", false)`.
pub fn parse_query_input(raw: &str) -> (r: (String, bool))
    ensures
        (r.0@, r.1) == parsed_query(raw@),
{
    let v = chars_of(raw);
    if v.len() > 0 && v[0] == '!' {
        let rest = slice_chars(&v, 1, v.len());
        assert(rest@ =~= raw@.drop_first());
        let t = trim_chars(&rest);
        (string_of(&t), true)
    } else {
        (string_of(&v), false)
    }
}

/// The overlay input that selects `word` for an exact lookup: `"! "`
/// followed by the trimmed word.
pub fn exact_query_for(word: &str) -> (r: String)
    ensures
        r@ == "! "@ + trim(word@),
{
    let t = crate::text::trimmed(word);
    concat("! ", t.as_str())
}

/// Selecting a word and reading the input back gives an exact lookup of the
/// trimmed word.
pub proof fn law_exact_query_round_trip(word: Seq<char>)
    ensures
        parsed_query("! "@ + trim(word)) == (trim(word), true),
{
    reveal_strlit("! ");
    let s = "! "@ + trim(word);
    assert(s[0] == '!');
    assert(s.drop_first() =~= seq![' '] + trim(word));
    lemma_trim_idempotent(word);
    lemma_trim_of_padded(trim(word));
}

/// Trimming a trimmed text after a leading space gives the text back.
proof fn lemma_trim_of_padded(t: Seq<char>)
    requires
        trim(t) == t,
    ensures
        trim(seq![' '] + t) == t,
{
    let p = seq![' '] + t;
    assert(p.drop_first() =~= t);
    assert(crate::text::trim_start(p) == crate::text::trim_start(t));
    assert(trim(p) == crate::text::trim_end(crate::text::trim_start(t)));
}

/// Whether the input contains at least one CJK ideograph (then it is a
/// Chinese → English search).
pub fn input_is_chinese(input: &str) -> (r: bool)
    ensures
        r == exists|i: int| 0 <= i < input@.len() && is_cjk(#[trigger] input@[i]),
{
    let v = chars_of(input);
    for i in 0..v.len()
        invariant
            v@ == input@,
            forall|k: int| 0 <= k < i ==> !is_cjk(#[trigger] v@[k]),
    {
        if cjk(v[i]) {
            return true;
        }
    }
    false
}

/// Focus index after dispatching a query: a jump from a card preview focuses
/// the exact-match card (1); any other query focuses the input box (0).
pub fn focus_for_new_query(arm_card_focus: bool) -> (r: usize)
    ensures
        r == (if arm_card_focus {
            1usize
        } else {
            0usize
        }),
{
    if arm_card_focus {
        1
    } else {
        0
    }
}

/// Whether a pointer over a result should take keyboard focus: only when it
/// hovers it and has moved.
pub fn should_focus_on_pointer_hover(hovered: bool, pointer_moved: bool) -> (r: bool)
    ensures
        r == (hovered && pointer_moved),
{
    hovered && pointer_moved
}

/// Arrow keys of the two-level focus over the Chinese results.
#[derive(Debug, Clone, Copy, PartialEq, Eq, Structural)]
pub enum CnNavKey {
    Up,
    Down,
    Left,
    Right,
}

/// The focus after an arrow key. Index `0` is the input box, `1..=num_rows`
/// the Chinese rows and `num_rows + 1` the web-search entry; `active_button`
/// is the focused English button of the focused row (`None` for the whole
/// row). Up/Down move between rows and drop back to row selection; Right
/// enters or advances the buttons of a row; Left retreats and, from the first
/// button, returns to row selection.
pub open spec fn cn_focus_next(
    key: CnNavKey,
    focus_index: nat,
    active_button: Option<nat>,
    num_rows: nat,
    buttons: nat,
) -> (nat, Option<nat>) {
    let last = num_rows + 1;
    let on_row = 1 <= focus_index <= num_rows;
    match key {
        CnNavKey::Down => (if focus_index + 1 <= last {
            (focus_index + 1) as nat
        } else {
            last
        }, None),
        CnNavKey::Up => (if focus_index > 0 {
            (focus_index - 1) as nat
        } else {
            0
        }, None),
        CnNavKey::Right => if on_row && buttons > 0 {
            (
                focus_index,
                Some(
                    match active_button {
                        None => 0,
                        Some(b) => if b + 1 <= buttons - 1 {
                            (b + 1) as nat
                        } else {
                            (buttons - 1) as nat
                        },
                    },
                ),
            )
        } else {
            (focus_index, active_button)
        },
        CnNavKey::Left => if on_row {
            match active_button {
                Some(b) => if b > 0 {
                    (focus_index, Some((b - 1) as nat))
                } else {
                    (focus_index, None)
                },
                None => (focus_index, None),
            }
        } else {
            (focus_index, active_button)
        },
    }
}

pub open spec fn opt_nat(o: Option<usize>) -> Option<nat> {
    match o {
        Some(b) => Some(b as nat),
        None => None,
    }
}

/// One step of the Chinese results' two-level focus (see [`cn_focus_next`]).
pub fn cn_focus_step(
    key: CnNavKey,
    focus_index: usize,
    active_button: Option<usize>,
    num_rows: usize,
    buttons_in_focused_row: usize,
) -> (r: (usize, Option<usize>))
    requires
        num_rows < usize::MAX,
    ensures
        (r.0 as nat, opt_nat(r.1)) == cn_focus_next(
            key,
            focus_index as nat,
            opt_nat(active_button),
            num_rows as nat,
            buttons_in_focused_row as nat,
        ),
{
    let last = num_rows + 1;
    let on_row = focus_index >= 1 && focus_index <= num_rows;
    match key {
        CnNavKey::Down => {
            let next = if focus_index < last {
                focus_index + 1
            } else {
                last
            };
            (next, None)
        },
        CnNavKey::Up => (focus_index.saturating_sub(1), None),
        CnNavKey::Right => {
            if on_row && buttons_in_focused_row > 0 {
                let next = match active_button {
                    None => 0,
                    Some(b) => if b < buttons_in_focused_row - 1 {
                        b + 1
                    } else {
                        buttons_in_focused_row - 1
                    },
                };
                (focus_index, Some(next))
            } else {
                (focus_index, active_button)
            }
        },
        CnNavKey::Left => {
            if on_row {
                match active_button {
                    Some(b) => if b > 0 {
                        (focus_index, Some(b - 1))
                    } else {
                        (focus_index, None)
                    },
                    None => (focus_index, None),
                }
            } else {
                (focus_index, active_button)
            }
        },
    }
}

/// Which English candidate Space/Enter activates on the focused Chinese row:
/// the focused button when it is in range; the lone candidate when the whole
/// row is selected and has exactly one; otherwise none.
pub fn cn_row_activation_index(active_button: Option<usize>, row_selected: bool, num_english: usize) -> (r:
    Option<usize>)
    ensures
        r == (match active_button {
            Some(b) => if b < num_english {
                Some(b)
            } else {
                None
            },
            None => if row_selected && num_english == 1 {
                Some(0usize)
            } else {
                None
            },
        }),
{
    match active_button {
        Some(b) => if b < num_english {
            Some(b)
        } else {
            None
        },
        None => if row_selected && num_english == 1 {
            Some(0)
        } else {
            None
        },
    }
}

/// Focus stays within the results: after any arrow key the index is at most
/// the web-search entry, and a focused button stays within the row's
/// buttons when it was entered by Right.
pub proof fn law_cn_focus_in_range(
    key: CnNavKey,
    focus_index: nat,
    active_button: Option<nat>,
    num_rows: nat,
    buttons: nat,
)
    requires
        focus_index <= num_rows + 1,
        active_button matches Some(b) ==> b < buttons,
    ensures
        cn_focus_next(key, focus_index, active_button, num_rows, buttons).0 <= num_rows + 1,
        cn_focus_next(key, focus_index, active_button, num_rows, buttons).1 matches Some(b) ==> b
            < buttons,
{
}

/// The registry value that launches the program at log-in: its path in
/// double quotes.
pub fn launch_on_startup_run_value(exe_path: &str) -> (r: String)
    ensures
        r@ == "\""@ + exe_path@ + "\""@,
{
    let open = concat("\"", exe_path);
    concat(open.as_str(), "\"")
}

} // verus!
