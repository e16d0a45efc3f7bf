//! Text shown on the dashboard: shortened labels and backfill progress.
use vstd::prelude::*;

use crate::backfill::BackfillStatus;
use crate::llm::ellipsis;
use crate::text::{chars_of, push_char, push_chars, push_str, string_of_range};

verus! {

/// `value` cut to `max_chars` characters, followed by `...` when cut.
pub open spec fn truncated(value: Seq<char>, max_chars: nat) -> Seq<char> {
    if value.len() <= max_chars {
        value
    } else {
        value.take(max_chars as int) + ellipsis()
    }
}

/// A truncated text is at most three characters longer than the limit,
/// keeps short texts whole, and keeps the first `max_chars` characters of long ones.
pub proof fn lemma_truncated_bounded(value: Seq<char>, max_chars: nat)
    ensures
        truncated(value, max_chars).len() <= max_chars + 3,
        value.len() <= max_chars ==> truncated(value, max_chars) == value,
        value.len() > max_chars ==> truncated(value, max_chars).take(max_chars as int)
            == value.take(max_chars as int),
{
    if value.len() > max_chars {
        assert((value.take(max_chars as int) + ellipsis()).take(max_chars as int) =~= value.take(
            max_chars as int,
        ));
    }
}

/// Shortens `value` to `max_chars` characters, marking the cut with `...`.
pub fn truncate(value: &str, max_chars: usize) -> (r: String)
    ensures
        r@ == truncated(value@, max_chars as nat),
{
    let cs = chars_of(value);
    if cs.len() <= max_chars {
        string_of_range(&cs, 0, cs.len())
    } else {
        let mut out = string_of_range(&cs, 0, max_chars);
        let dots: Vec<char> = vec!['.', '.', '.'];
        push_chars(&mut out, &dots);
        assert(cs@.subrange(0, max_chars as int) == cs@.take(max_chars as int));
        out
    }
}

/// The decimal digit `d`.
pub open spec fn digit(d: nat) -> char {
    (48 + d) as char
}

/// The decimal notation of `n`, without leading zeros.
pub open spec fn decimal(n: nat) -> Seq<char>
    decreases n,
{
    if n < 10 {
        seq![digit(n)]
    } else {
        decimal(n / 10).push(digit(n % 10))
    }
}

/// The decimal digit character for `d`.
fn digit_char(d: usize) -> (r: char)
    requires
        d < 10,
    ensures
        r == digit(d as nat),
{
    let b: u8 = (d as u8) + 48;
    b as char
}

/// The decimal notation of `n`.
pub fn decimal_string(n: usize) -> (r: String)
    ensures
        r@ == decimal(n as nat),
    decreases n,
{
    if n < 10 {
        let mut s = String::new();
        push_char(&mut s, digit_char(n));
        s
    } else {
        let mut s = decimal_string(n / 10);
        push_char(&mut s, digit_char(n % 10));
        s
    }
}

/// The progress caption: content and judgment embeddings refreshed so far.
pub open spec fn progress_text(page_processed: nat, llm_processed: nat) -> Seq<char> {
    "page "@ + decimal(page_processed) + "  llm "@ + decimal(llm_processed)
}

/// The caption of the backfill progress bar.
pub fn progress_label(status: &BackfillStatus) -> (r: String)
    ensures
        r@ == progress_text(status.page_processed as nat, status.llm_processed as nat),
{
    let mut s = String::from_str("page ");
    let page = decimal_string(status.page_processed);
    push_str(&mut s, page.as_str());
    push_str(&mut s, "  llm ");
    let llm = decimal_string(status.llm_processed);
    push_str(&mut s, llm.as_str());
    s
}

} // verus!
