//! The per-frame decisions of the search flyout: what to query when the input
//! changes, how results are laid out into the exact card, the previews and
//! the web-search row, how arrow keys move the focus, how a wake request
//! moves the animation, and what a poll of a running query does.
use vstd::prelude::*;
use crate::algo::{fuzzy_scored, prefix_candidates, prefix_scored, rank_candidates, texts, top_texts};
use crate::focus::AnimationState;
use crate::text::{chars_of, string_of, to_lowercase, trim, trim_chars, unicode_lowercase};
use crate::ui::{cn_row_activation_index, input_is_chinese, is_cjk, parse_query_input, parsed_query};

verus! {

/// Largest number of suggestion keys queried besides the exact key, and
/// largest number of previews shown.
pub const MAX_SUGGESTIONS: usize = 5;

/// What to do after the input changed.
pub struct QueryPlan {
    /// The trimmed, lower-cased input (remembered to detect the next change).
    pub raw: String,
    /// The key that an exact match must have.
    pub search_key: String,
    /// Whether this is a Chinese → English search.
    pub chinese: bool,
    /// The keys to query, in priority order; empty when nothing is queried.
    pub keys: Vec<String>,
    /// The focus index after the change.
    pub focus_index: usize,
}

/// `s` without the occurrences of `k`.
pub open spec fn without(s: Seq<Seq<char>>, k: Seq<char>) -> Seq<Seq<char>>
    decreases s.len(),
{
    if s.len() == 0 {
        Seq::empty()
    } else if s.last() == k {
        without(s.drop_last(), k)
    } else {
        without(s.drop_last(), k).push(s.last())
    }
}

/// The keys queried for an English search key `k`: none for an empty key,
/// the key alone in exact mode, otherwise the key followed by its best fuzzy
/// or prefix suggestions other than itself.
pub open spec fn english_keys(k: Seq<char>, exact: bool, list: Seq<Seq<char>>) -> Seq<Seq<char>> {
    if k.len() == 0 {
        Seq::empty()
    } else if exact {
        seq![k]
    } else {
        seq![k] + without(
            top_texts(fuzzy_scored(unicode_lowercase(trim(k)), list), MAX_SUGGESTIONS as nat),
            k,
        )
    }
}

/// The keys queried for a Chinese input `raw`: its prefix completions (the
/// exact term first), none for an empty input.
pub open spec fn chinese_keys(raw: Seq<char>, list: Seq<Seq<char>>) -> Seq<Seq<char>> {
    if raw.len() == 0 || trim(raw).len() == 0 {
        Seq::empty()
    } else {
        top_texts(prefix_scored(trim(raw), list), MAX_SUGGESTIONS as nat)
    }
}

fn drop_key(v: Vec<String>, k: &String) -> (r: Vec<String>)
    ensures
        r@.map_values(|s: String| s@) == without(v@.map_values(|s: String| s@), k@),
{
    let ghost vs = v@.map_values(|s: String| s@);
    let mut r: Vec<String> = Vec::new();
    for i in 0..v.len()
        invariant
            vs == v@.map_values(|s: String| s@),
            r@.map_values(|s: String| s@) == without(vs.take(i as int), k@),
    {
        proof {
            assert(vs.take(i + 1).drop_last() =~= vs.take(i as int));
            assert(vs.take(i + 1).last() == v@[i as int]@);
        }
        if !(v[i] == *k) {
            let ghost before = r@;
            r.push(v[i].clone());
            proof {
                assert(r@.map_values(|s: String| s@) =~= before.map_values(|s: String| s@).push(
                    v@[i as int]@,
                ));
            }
        }
    }
    proof {
        assert(vs.take(v.len() as int) =~= vs);
    }
    r
}

/// What to query after a frame's input: `None` when the trimmed, lower-cased
/// input is the one already searched; otherwise the new plan. A Chinese
/// input (one holding a CJK ideograph) queries its prefix completions; an
/// English one queries its key (see [`parsed_query`]) and, unless exact
/// mode was asked for with `!`, its best suggestions. The focus goes to the
/// exact card after a jump from a preview, else to the input box.
pub fn plan_query(
    input: &str,
    last_input: &str,
    arm_card_focus: bool,
    word_list: &[&str],
    word_list_cn: &[&str],
) -> (r: Option<QueryPlan>)
    ensures
        ({
            let raw = unicode_lowercase(trim(input@));
            match r {
                None => raw == last_input@,
                Some(p) => {
                    &&& raw != last_input@
                    &&& p.raw@ == raw
                    &&& p.chinese == exists|i: int|
                        0 <= i < trim(input@).len() && is_cjk(#[trigger] trim(input@)[i])
                    &&& p.focus_index == (if arm_card_focus { 1usize } else { 0usize })
                    &&& p.chinese ==> p.search_key@ == raw && p.keys@.map_values(|s: String| s@)
                        == chinese_keys(raw, texts(word_list_cn@))
                    &&& !p.chinese ==> p.search_key@ == parsed_query(raw).0 && p.keys@.map_values(
                        |s: String| s@,
                    ) == english_keys(parsed_query(raw).0, parsed_query(raw).1, texts(word_list@))
                },
            }
        }),
{
    let trimmed = string_of(&trim_chars(&chars_of(input)));
    let raw = to_lowercase(trimmed.as_str());
    let last = string_of(&chars_of(last_input));
    if raw == last {
        return None;
    }
    let chinese = input_is_chinese(trimmed.as_str());
    let focus_index: usize = if arm_card_focus {
        1
    } else {
        0
    };
    if chinese {
        let keys = if raw.as_str().is_empty() {
            Vec::new()
        } else {
            prefix_candidates(raw.as_str(), word_list_cn, MAX_SUGGESTIONS)
        };
        let search_key = raw.clone();
        return Some(QueryPlan { raw, search_key, chinese, keys, focus_index });
    }
    let (search_key, exact) = parse_query_input(raw.as_str());
    let mut keys: Vec<String> = Vec::new();
    if !search_key.as_str().is_empty() {
        if exact {
            keys.push(search_key.clone());
            assert(keys@.map_values(|s: String| s@) =~= seq![search_key@]);
        } else {
            let found = rank_candidates(search_key.as_str(), word_list, MAX_SUGGESTIONS);
            let others = drop_key(found, &search_key);
            keys.push(search_key.clone());
            let ghost head = keys@;
            let ghost ov = others@.map_values(|s: String| s@);
            for i in 0..others.len()
                invariant
                    ov == others@.map_values(|s: String| s@),
                    keys@.map_values(|s: String| s@) == seq![search_key@] + ov.take(i as int),
            {
                let ghost before = keys@;
                keys.push(others[i].clone());
                proof {
                    assert(keys@.map_values(|s: String| s@) =~= before.map_values(|s: String| s@).push(
                        others@[i as int]@,
                    ));
                    assert(ov.take(i + 1) =~= ov.take(i as int).push(ov[i as int]));
                }
            }
            assert(ov.take(others.len() as int) =~= ov);
        }
    } else {
        assert(keys@.map_values(|s: String| s@) =~= Seq::<Seq<char>>::empty());
    }
    Some(QueryPlan { raw, search_key, chinese, keys, focus_index })
}

/// Moves the focus of the (non-Chinese) results with the arrow keys pressed
/// this frame: down moves to the next item, stopping at the last of `total`;
/// then up moves to the previous one, stopping at the input box (0).
pub fn step_focus(focus: usize, total: usize, down: bool, up: bool) -> (r: usize)
    requires
        total >= 1,
    ensures
        ({
            let f1: int = if down {
                if focus + 1 <= total - 1 { focus + 1 } else { total - 1 }
            } else {
                focus as int
            };
            r == (if up && f1 > 0 { f1 - 1 } else { f1 })
        }),
        // The focus stays on an item.
        focus < total ==> r < total,
{
    let mut f = focus;
    if down {
        f = if focus < total - 1 {
            focus + 1
        } else {
            total - 1
        };
    }
    if up && f > 0 {
        f = f - 1;
    }
    f
}

/// How a frame's results are laid out.
pub struct ResultLayout {
    /// The index of the record shown as the exact card.
    pub exact: Option<usize>,
    /// The indices of the records shown as previews, in order.
    pub previews: Vec<usize>,
    /// Whether the results are Chinese preview rows.
    pub chinese_mode: bool,
    /// The number of focusable items: the input box, the results, and the
    /// web-search row (the last one) when there is query text.
    pub total_items: usize,
}

/// The first index at which `keys` holds `k`, if any.
pub open spec fn first_index(keys: Seq<Seq<char>>, k: Seq<char>) -> Option<int> {
    if exists|i: int| 0 <= i < keys.len() && keys[i] == k {
        Some(choose|i: int| 0 <= i < keys.len() && keys[i] == k && forall|j: int| 0 <= j < i ==> keys[j] != k)
    } else {
        None
    }
}

/// The first `max` indices of `0..n` other than `skip`.
pub open spec fn other_indices(n: nat, skip: Option<int>, max: nat) -> Seq<int>
    decreases n,
{
    if n == 0 {
        Seq::empty()
    } else {
        let prev = other_indices((n - 1) as nat, skip, max);
        if skip == Some(n - 1) || prev.len() >= max {
            prev
        } else {
            prev.push(n - 1)
        }
    }
}

/// Lays the records (given by their keys) out: the first record whose key is
/// the search key is the exact card and the next [`MAX_SUGGESTIONS`] others
/// are previews, all only when results can be shown (no IME composition);
/// Chinese searches with records show `cn_rows` preview rows instead. The
/// focusable items are the input box alone without query text; the input box
/// and the web-search row without records; otherwise also the Chinese rows,
/// or the card and the previews.
pub fn layout_results(
    record_keys: &Vec<String>,
    search_key: &str,
    can_show: bool,
    search_is_chinese: bool,
    cn_rows: usize,
) -> (r: ResultLayout)
    requires
        cn_rows + 2 <= usize::MAX,
    ensures
        ({
            let keys = record_keys@.map_values(|s: String| s@);
            let exact = if can_show { first_index(keys, search_key@) } else { None };
            &&& r.exact == (match exact { Some(i) => Some(i as usize), None => None::<usize> })
            &&& r.previews@.map_values(|i: usize| i as int) == (if can_show {
                other_indices(keys.len(), exact, MAX_SUGGESTIONS as nat)
            } else {
                Seq::<int>::empty()
            })
            &&& r.previews.len() <= MAX_SUGGESTIONS
            &&& forall|i: int|
                0 <= i < r.previews.len() ==> #[trigger] r.previews@[i] < keys.len() && Some(
                    r.previews@[i],
                ) != r.exact
            &&& r.chinese_mode == (search_is_chinese && can_show && keys.len() > 0)
            &&& r.total_items == (if !(can_show && search_key@.len() > 0) {
                1
            } else if keys.len() == 0 {
                2
            } else if r.chinese_mode {
                cn_rows + 2
            } else {
                (if exact is Some { 1int } else { 0int }) + r.previews.len() + 2
            })
        }),
{
    let ghost keys = record_keys@.map_values(|s: String| s@);
    let key = string_of(&chars_of(search_key));
    let mut exact: Option<usize> = None;
    let mut previews: Vec<usize> = Vec::new();
    if can_show {
        let mut i: usize = 0;
        while i < record_keys.len()
            invariant_except_break
                exact is None,
            invariant
                keys == record_keys@.map_values(|s: String| s@),
                key@ == search_key@,
                i <= record_keys.len(),
                forall|j: int| 0 <= j < i ==> keys[j] != search_key@,
            ensures
                (exact is None && i == record_keys.len()) || (exact == Some(i) && i
                    < record_keys.len() && keys[i as int] == search_key@),
            decreases record_keys.len() - i,
        {
            if record_keys[i] == key {
                exact = Some(i);
                break;
            }
            i += 1;
        }
        proof {
            if exact is Some {
                assert(keys[i as int] == search_key@);
                let c = choose|j: int| 0 <= j < keys.len() && keys[j] == search_key@ && forall|m: int| 0 <= m < j ==> keys[m] != search_key@;
                assert(c == i) by {
                    if c < i {
                    } else if c > i {
                        assert(keys[i as int] != search_key@);
                    }
                }
            }
        }
        let ghost ex: Option<int> = match exact {
            Some(e) => Some(e as int),
            None => None,
        };
        for j in 0..record_keys.len()
            invariant
                previews@.map_values(|x: usize| x as int) == other_indices(j as nat, ex, MAX_SUGGESTIONS as nat),
                ex == (match exact { Some(e) => Some(e as int), None => None::<int> }),
                previews.len() <= MAX_SUGGESTIONS,
                forall|k: int|
                    0 <= k < previews.len() ==> #[trigger] previews@[k] < j && Some(previews@[k])
                        != exact,
        {
            let skip = match exact {
                Some(e) => e == j,
                None => false,
            };
            if !skip && previews.len() < MAX_SUGGESTIONS {
                let ghost before = previews@;
                previews.push(j);
                assert(previews@.map_values(|x: usize| x as int) =~= before.map_values(|x: usize| x as int).push(j as int));
            }
        }
    } else {
        assert(previews@.map_values(|x: usize| x as int) =~= Seq::<int>::empty());
    }
    assert(previews.len() <= MAX_SUGGESTIONS);
    let chinese_mode = search_is_chinese && can_show && record_keys.len() > 0;
    let total_items: usize = if !(can_show && !search_key.is_empty()) {
        1
    } else if record_keys.len() == 0 {
        2
    } else if chinese_mode {
        cn_rows + 2
    } else {
        (if exact.is_some() { 1 } else { 0 }) + previews.len() + 2
    };
    ResultLayout { exact, previews, chinese_mode, total_items }
}

/// What a wake request does.
pub struct WakeOutcome {
    /// The animation state afterwards.
    pub state: AnimationState,
    /// Whether the flyout moves to the monitor under the cursor.
    pub retarget: bool,
    /// Whether the opacity restarts from zero.
    pub reset_opacity: bool,
}

/// A wake request (hotkey or tray): a hidden flyout fades in from zero on the
/// monitor under the cursor; a shown one on another monitor moves there; a
/// flyout that is not fully visible fades (back) in from where it is; a
/// visible one on the cursor's monitor stays as it is.
/// `on_cursor_monitor` tells whether the flyout's current monitor is the one
/// under the cursor.
pub fn wake_transition(state: AnimationState, on_cursor_monitor: bool) -> (r: WakeOutcome)
    ensures
        r.retarget == (state == AnimationState::Hidden || !on_cursor_monitor),
        r.reset_opacity == (state == AnimationState::Hidden),
        r.state == (if state == AnimationState::Visible {
            AnimationState::Visible
        } else {
            AnimationState::FadingIn
        }),
{
    let was_hidden = state == AnimationState::Hidden;
    let relocating = !was_hidden && !on_cursor_monitor;
    let next = if state != AnimationState::Visible {
        AnimationState::FadingIn
    } else {
        state
    };
    WakeOutcome { state: next, retarget: was_hidden || relocating, reset_opacity: was_hidden }
}

/// What a poll of a running query reported.
#[derive(Debug, Clone, Copy, PartialEq, Eq, Structural)]
pub enum PollSignal {
    /// New results arrived.
    Changed,
    /// The query completed.
    Finished,
    /// The query failed.
    Failed,
    /// Nothing new within the wait.
    TimedOut,
}

/// What to do with a poll's outcome.
pub struct PollOutcome {
    /// Take the query's current results as the shown records.
    pub take_records: bool,
    /// Drop the query handle.
    pub clear_query: bool,
}

/// A poll of the running query: the results of the current query (the one
/// of the latest input) are shown whenever they changed, finished or the
/// wait timed out; a finished or failed query is dropped, and so is a query
/// superseded by a newer input, at its next poll.
pub fn poll_outcome(signal: PollSignal, is_current: bool) -> (r: PollOutcome)
    ensures
        r.take_records == (is_current && signal != PollSignal::Failed),
        r.clear_query == (match signal {
            PollSignal::Finished | PollSignal::Failed => true,
            PollSignal::Changed | PollSignal::TimedOut => !is_current,
        }),
{
    match signal {
        PollSignal::Changed => PollOutcome { take_records: is_current, clear_query: !is_current },
        PollSignal::Finished => PollOutcome { take_records: is_current, clear_query: true },
        PollSignal::Failed => PollOutcome { take_records: false, clear_query: true },
        PollSignal::TimedOut => PollOutcome { take_records: is_current, clear_query: !is_current },
    }
}

/// The UTF-8 encoding of `c`.
pub open spec fn utf8_bytes(c: char) -> Seq<u8> {
    let v = c as int;
    if v < 0x80 {
        seq![v as u8]
    } else if v < 0x800 {
        seq![(0xC0 + v / 64) as u8, (0x80 + v % 64) as u8]
    } else if v < 0x10000 {
        seq![(0xE0 + v / 4096) as u8, (0x80 + (v / 64) % 64) as u8, (0x80 + v % 64) as u8]
    } else {
        seq![
            (0xF0 + v / 262144) as u8,
            (0x80 + (v / 4096) % 64) as u8,
            (0x80 + (v / 64) % 64) as u8,
            (0x80 + v % 64) as u8,
        ]
    }
}

/// The upper-case hexadecimal digit of `n` (below 16).
pub open spec fn hex_digit(n: int) -> char {
    if n < 10 {
        (('0' as int) + n) as char
    } else {
        (('A' as int) + n - 10) as char
    }
}

/// `%XX` for each byte.
pub open spec fn percent_bytes(bs: Seq<u8>) -> Seq<char>
    decreases bs.len(),
{
    if bs.len() == 0 {
        Seq::empty()
    } else {
        percent_bytes(bs.drop_last()) + seq!['%', hex_digit(bs.last() as int / 16), hex_digit(bs.last() as int % 16)]
    }
}

/// How one character of a query is written in a URL: ASCII letters and
/// digits as they are, a space as `%20`, anything else as its percent-encoded
/// UTF-8 bytes.
pub open spec fn url_char(c: char) -> Seq<char> {
    if ('a' <= c && c <= 'z') || ('A' <= c && c <= 'Z') || ('0' <= c && c <= '9') {
        seq![c]
    } else if c == ' ' {
        seq!['%', '2', '0']
    } else {
        percent_bytes(utf8_bytes(c))
    }
}

/// The URL encoding of a query.
pub open spec fn url_encoded(s: Seq<char>) -> Seq<char>
    decreases s.len(),
{
    if s.len() == 0 {
        Seq::empty()
    } else {
        url_encoded(s.drop_last()) + url_char(s.last())
    }
}

fn hex_char(n: u8) -> (r: char)
    requires
        n < 16,
    ensures
        r == hex_digit(n as int),
{
    if n < 10 {
        (48u8 + n) as char
    } else {
        (55u8 + n) as char
    }
}

fn push_percent(out: &mut String, b: u8)
    ensures
        final(out)@ == old(out)@ + seq!['%', hex_digit(b as int / 16), hex_digit(b as int % 16)],
{
    crate::text::push_char(out, '%');
    crate::text::push_char(out, hex_char(b / 16));
    crate::text::push_char(out, hex_char(b % 16));
    assert(out@ =~= old(out)@ + seq!['%', hex_digit(b as int / 16), hex_digit(b as int % 16)]);
}

/// The UTF-8 bytes of `c`.
fn utf8_of(c: char) -> (r: Vec<u8>)
    ensures
        r@ == utf8_bytes(c),
{
    let v = c as u32;
    let mut r: Vec<u8> = Vec::new();
    if v < 0x80 {
        r.push(v as u8);
    } else if v < 0x800 {
        r.push((0xC0 + v / 64) as u8);
        r.push((0x80 + v % 64) as u8);
    } else if v < 0x10000 {
        r.push((0xE0 + v / 4096) as u8);
        r.push((0x80 + (v / 64) % 64) as u8);
        r.push((0x80 + v % 64) as u8);
    } else {
        assert(v <= 0x10FFFF);
        r.push((0xF0 + v / 262144) as u8);
        r.push((0x80 + (v / 4096) % 64) as u8);
        r.push((0x80 + (v / 64) % 64) as u8);
        r.push((0x80 + v % 64) as u8);
    }
    assert(r@ =~= utf8_bytes(c));
    r
}

/// The web-search address for a query: the Bing search URL with the query
/// URL-encoded (see [`url_char`]).
pub fn bing_search_url(query: &str) -> (r: String)
    ensures
        r@ == "https://www.bing.com/search?q="@ + url_encoded(query@),
{
    let v = chars_of(query);
    let mut out = String::from_str("https://www.bing.com/search?q=");
    let ghost base = out@;
    for i in 0..v.len()
        invariant
            v@ == query@,
            base == "https://www.bing.com/search?q="@,
            out@ == base + url_encoded(v@.take(i as int)),
    {
        let c = v[i];
        let ghost before = out@;
        if ('a' <= c && c <= 'z') || ('A' <= c && c <= 'Z') || ('0' <= c && c <= '9') {
            crate::text::push_char(&mut out, c);
        } else if c == ' ' {
            crate::text::push_char(&mut out, '%');
            crate::text::push_char(&mut out, '2');
            crate::text::push_char(&mut out, '0');
        } else {
            let bytes = utf8_of(c);
            for k in 0..bytes.len()
                invariant
                    out@ == before + percent_bytes(bytes@.take(k as int)),
            {
                push_percent(&mut out, bytes[k]);
                assert(bytes@.take(k + 1).drop_last() =~= bytes@.take(k as int));
            }
            assert(bytes@.take(bytes.len() as int) =~= bytes@);
        }
        proof {
            assert(v@.take(i + 1).drop_last() =~= v@.take(i as int));
            assert(out@ =~= before + url_char(c));
        }
    }
    assert(v@.take(v.len() as int) =~= v@);
    out
}

/// What a Chinese preview row does this frame.
#[derive(Debug, Clone, Copy, PartialEq, Eq, Structural)]
pub enum CnRowChoice {
    /// Activate the English word at this index.
    Activate(usize),
    /// Focus the English button at this index.
    HoverButton(usize),
    /// Select the whole row.
    HoverRow,
}

/// The interaction of a Chinese preview row, by priority: Enter/Space on the
/// row's activatable word (see [`cn_row_activation_index`]), then a click on
/// a button, then a button hovered by a moving pointer, then the row hovered
/// by a moving pointer.
pub fn cn_row_choice(
    clicked_button: Option<usize>,
    hovered_button: Option<usize>,
    row_hovered: bool,
    enter_pressed: bool,
    active_button: Option<usize>,
    row_selected: bool,
    num_english: usize,
) -> (r: Option<CnRowChoice>)
    ensures
        ({
            let key_pick = match active_button {
                Some(b) => if b < num_english { Some(b) } else { None::<usize> },
                None => if row_selected && num_english == 1 { Some(0usize) } else { None::<usize> },
            };
            r == (if enter_pressed && key_pick is Some {
                Some(CnRowChoice::Activate(key_pick->0))
            } else if clicked_button is Some {
                Some(CnRowChoice::Activate(clicked_button->0))
            } else if hovered_button is Some {
                Some(CnRowChoice::HoverButton(hovered_button->0))
            } else if row_hovered {
                Some(CnRowChoice::HoverRow)
            } else {
                None
            })
        }),
{
    if enter_pressed {
        if let Some(i) = cn_row_activation_index(active_button, row_selected, num_english) {
            return Some(CnRowChoice::Activate(i));
        }
    }
    if let Some(i) = clicked_button {
        return Some(CnRowChoice::Activate(i));
    }
    if let Some(i) = hovered_button {
        return Some(CnRowChoice::HoverButton(i));
    }
    if row_hovered {
        Some(CnRowChoice::HoverRow)
    } else {
        None
    }
}

/// An input-method event.
pub enum ImeEvent {
    /// The text being composed.
    Preedit(String),
    /// The composition was committed.
    Commit,
    /// The input method was turned off.
    Disabled,
    /// The input method was turned on.
    Enabled,
}

/// Whether text is being composed after an input-method event: while the
/// composed text is not empty; not after a commit or when the input method
/// is turned off; unchanged when it is turned on.
pub fn ime_composing_after(composing: bool, event: &ImeEvent) -> (r: bool)
    ensures
        r == match event {
            ImeEvent::Preedit(t) => t@.len() > 0,
            ImeEvent::Commit | ImeEvent::Disabled => false,
            ImeEvent::Enabled => composing,
        },
{
    match event {
        ImeEvent::Preedit(t) => !t.as_str().is_empty(),
        ImeEvent::Commit | ImeEvent::Disabled => false,
        ImeEvent::Enabled => composing,
    }
}

} // verus!
