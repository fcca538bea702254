//! Pure view-state decisions: which view is active, which entry of the
//! model selector is highlighted, how scrolling moves, and how a tool
//! result is summarised for the chat.  The rendering itself happens
//! outside the library.

use vstd::prelude::*;
use vstd::utf8::encode_utf8;
use vstd::string::StrSliceExecFns;

verus! {

/// The active view.
#[derive(Debug, Clone, Copy, PartialEq, Eq, Structural)]
pub enum AppMode {
    Chat,
    Terminal,
    ModelSelector,
}

/// Where the view switch key leads from each view.
pub open spec fn spec_toggled_view(m: AppMode) -> AppMode {
    match m {
        AppMode::Chat => AppMode::Terminal,
        AppMode::Terminal => AppMode::Chat,
        AppMode::ModelSelector => AppMode::Chat,
    }
}

/// Switch between the chat and the terminal view.
pub fn toggled_view(m: AppMode) -> (r: AppMode)
    ensures
        r == spec_toggled_view(m),
{
    match m {
        AppMode::Chat => AppMode::Terminal,
        AppMode::Terminal => AppMode::Chat,
        AppMode::ModelSelector => AppMode::Chat,
    }
}

/// The selector entry after moving down: wraps past the end; an empty
/// list keeps the selection.
pub open spec fn spec_select_next(len: usize, cur: Option<usize>) -> Option<usize> {
    if len == 0 {
        cur
    } else {
        match cur {
            Option::Some(i) => if i + 1 >= len {
                Option::Some(0)
            } else {
                Option::Some((i + 1) as usize)
            },
            Option::None => Option::Some(0),
        }
    }
}

/// Move the selection down one entry.
pub fn select_next_model(len: usize, cur: Option<usize>) -> (r: Option<usize>)
    requires
        match cur {
            Option::Some(i) => i < len || len == 0,
            Option::None => true,
        },
    ensures
        r == spec_select_next(len, cur),
{
    if len == 0 {
        cur
    } else {
        match cur {
            Some(i) => if i + 1 >= len {
                Some(0)
            } else {
                Some(i + 1)
            },
            None => Some(0),
        }
    }
}

/// The selector entry after moving up: wraps past the start; an empty
/// list keeps the selection.
pub open spec fn spec_select_prev(len: usize, cur: Option<usize>) -> Option<usize> {
    if len == 0 {
        cur
    } else {
        match cur {
            Option::Some(i) => if i == 0 {
                Option::Some((len - 1) as usize)
            } else {
                Option::Some((i - 1) as usize)
            },
            Option::None => Option::Some(0),
        }
    }
}

/// Move the selection up one entry.
pub fn select_prev_model(len: usize, cur: Option<usize>) -> (r: Option<usize>)
    ensures
        r == spec_select_prev(len, cur),
{
    if len == 0 {
        cur
    } else {
        match cur {
            Some(i) => if i == 0 {
                Some(len - 1)
            } else {
                Some(i - 1)
            },
            None => Some(0),
        }
    }
}

/// The entry highlighted when a model list arrives: the position of
/// the configured model, the first entry if it is absent, nothing if
/// the list is empty.
pub fn initial_model_selection(models: &Vec<String>, current: &String) -> (r: Option<usize>)
    ensures
        match r {
            Option::Some(i) => models@.len() > 0 && i < models@.len() && ((models@[i as int]@
                == current@ && forall|j: int| 0 <= j < i ==> models@[j]@ != current@) || (i == 0
                && forall|j: int| 0 <= j < models@.len() ==> models@[j]@ != current@)),
            Option::None => models@.len() == 0,
        },
{
    if models.len() == 0 {
        return None;
    }
    let mut i: usize = 0;
    while i < models.len()
        invariant
            0 <= i <= models@.len(),
            forall|j: int| 0 <= j < i ==> models@[j]@ != current@,
        decreases models@.len() - i,
    {
        if models[i].eq(current) {
            return Some(i);
        }
        i = i + 1;
    }
    Some(0)
}

/// The chat scroll offset after one line up.
pub fn chat_scroll_up(x: u16) -> (r: u16)
    ensures
        r == (if x > 0 {
            x - 1
        } else {
            0
        }),
{
    if x > 0 {
        x - 1
    } else {
        0
    }
}

/// The chat scroll offset after one line down; saturates at the top of
/// the range.
pub fn chat_scroll_down(x: u16) -> (r: u16)
    ensures
        r == (if x < u16::MAX {
            x + 1
        } else {
            u16::MAX as int
        }),
{
    if x < u16::MAX {
        x + 1
    } else {
        u16::MAX
    }
}

/// The chat scroll offset after one page move: down for a positive
/// amount, up for a negative one, saturating at both ends.
pub fn chat_scroll_page(x: u16, amt: i16) -> (r: u16)
    ensures
        amt < 0 ==> r == (if x >= -(amt as int) {
            x + amt
        } else {
            0
        }),
        amt >= 0 ==> r == (if x + amt <= u16::MAX {
            x + amt
        } else {
            u16::MAX as int
        }),
{
    if amt < 0 {
        let up_wide: i32 = -(amt as i32);
        let up = up_wide as u16;
        if x >= up {
            x - up
        } else {
            0
        }
    } else {
        let down = amt as u16;
        if x <= u16::MAX - down {
            x + down
        } else {
            u16::MAX
        }
    }
}

/// The terminal selection after moving by `delta` lines: never before
/// the first line.
pub fn term_scroll_after(cur: Option<usize>, delta: i32) -> (r: usize)
    requires
        match cur {
            Option::Some(i) => i <= i32::MAX,
            Option::None => true,
        },
    ensures
        ({
            let base: int = match cur {
                Option::Some(i) => i as int,
                Option::None => 0,
            };
            r == (if base + delta > 0 {
                base + delta
            } else {
                0
            })
        }),
{
    let base: i64 = match cur {
        Some(i) => i as i64,
        None => 0,
    };
    let moved: i64 = base + (delta as i64);
    if moved > 0 {
        moved as usize
    } else {
        0
    }
}

/// Whether the terminal view is following its last line.
pub fn term_at_bottom(cur: Option<usize>, len: usize) -> (r: bool)
    ensures
        r == (match cur {
            Option::Some(s) => s + 1 >= len,
            Option::None => true,
        }),
{
    match cur {
        Some(s) => s >= len.saturating_sub(1),
        None => true,
    }
}

/// The decimal digits of a number, most significant first.
pub open spec fn dec_digits(n: nat) -> Seq<u8>
    decreases n,
{
    if n < 10 {
        seq![(48 + n) as u8]
    } else {
        dec_digits(n / 10).push((48 + n % 10) as u8)
    }
}

/// Render a number in decimal.
pub fn to_decimal(n: usize) -> (r: Vec<u8>)
    ensures
        r@ == dec_digits(n as nat),
    decreases n,
{
    if n < 10 {
        let mut v: Vec<u8> = Vec::new();
        v.push(48 + n as u8);
        proof {
            assert(v@ =~= dec_digits(n as nat));
        }
        v
    } else {
        let mut v = to_decimal(n / 10);
        v.push(48 + (n % 10) as u8);
        v
    }
}

/// How a tool result appears in the chat: short output verbatim, long
/// output replaced by a note with its size, the output itself having
/// gone to the terminal view.
pub open spec fn spec_command_end_summary(o: Seq<u8>) -> Seq<u8> {
    if o.len() <= 200 {
        o
    } else {
        encode_utf8("Output ("@) + dec_digits(o.len()) + encode_utf8(" bytes) sent to terminal."@)
    }
}

/// Summarise a tool result for the chat.
pub fn command_end_summary(o: Vec<u8>) -> (r: Vec<u8>)
    ensures
        r@ == spec_command_end_summary(o@),
{
    if o.len() <= 200 {
        o
    } else {
        let mut r = "Output (".as_bytes_vec();
        let mut digits = to_decimal(o.len());
        r.append(&mut digits);
        let mut tail = " bytes) sent to terminal.".as_bytes_vec();
        r.append(&mut tail);
        proof {
            assert(r@ =~= spec_command_end_summary(o@));
        }
        r
    }
}

/// The model names a tags response of the backend lists, in order.
/// The value depends on the bytes alone; a body without such a list —
/// malformed or not — names none.
pub uninterp spec fn models_of(s: Seq<u8>) -> Seq<Seq<char>>;

/// The names in a model list, as character sequences.
pub open spec fn names_model(ns: Seq<String>) -> Seq<Seq<char>>
    decreases ns.len(),
{
    if ns.len() == 0 {
        Seq::empty()
    } else {
        seq![ns[0]@] + names_model(ns.drop_first())
    }
}

/// Relies on `serde_json::from_slice` and the accessors of
/// `serde_json::Value`: reads the `models` array of a tags response
/// and each entry's `name` string.
#[verifier::external_body]
fn parse_models_list(body: &Vec<u8>) -> (r: Vec<String>)
    ensures
        names_model(r@) == models_of(body@),
{
    let v: serde_json::Value = match serde_json::from_slice(body.as_slice()) {
        Ok(v) => v,
        Err(_) => return Vec::new(),
    };
    let mut out = Vec::new();
    let models = v.get("models").and_then(|m| m.as_array());
    for m in models.into_iter().flatten() {
        if let Some(name) = m.get("name").and_then(|n| n.as_str()) {
            out.push(name.to_string());
        }
    }
    out
}

/// Decode a tags response and pick the entry to highlight: the names
/// the backend listed, and the position of the configured model among
/// them.
pub fn models_loaded(body: &Vec<u8>, current: &String) -> (r: (Vec<String>, Option<usize>))
    ensures
        names_model(r.0@) == models_of(body@),
        match r.1 {
            Option::Some(i) => r.0@.len() > 0 && i < r.0@.len() && ((r.0@[i as int]@ == current@
                && forall|j: int| 0 <= j < i ==> r.0@[j]@ != current@) || (i == 0 && forall|j: int|
                0 <= j < r.0@.len() ==> r.0@[j]@ != current@)),
            Option::None => r.0@.len() == 0,
        },
{
    let names = parse_models_list(body);
    let sel = initial_model_selection(&names, current);
    (names, sel)
}

} // verus!
