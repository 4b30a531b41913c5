//! The tray menu's labels, chosen by the system locale: Traditional Chinese
//! for locales that begin with `zh`, English otherwise.

use vstd::prelude::*;
use crate::text::chars_of;

verus! {

/// What `str::to_lowercase` gives for a string.
pub uninterp spec fn lowercase(s: Seq<char>) -> Seq<char>;

/// Calls `str::to_lowercase`.
/// Trusted: the result is `lowercase` of the argument.
#[verifier::external_body]
fn to_lower(s: &str) -> (r: String)
    ensures
        r@ == lowercase(s@),
{
    s.to_lowercase()
}

/// The labels of the tray menu: toggle, show, quit.
pub struct TrayLabels {
    pub toggle: &'static str,
    pub show: &'static str,
    pub quit: &'static str,
}

/// Whether a lower-cased locale names Chinese.
pub open spec fn is_chinese(lowered: Seq<char>) -> bool {
    lowered.len() >= 2 && lowered[0] == 'z' && lowered[1] == 'h'
}

/// Whether the labels are the Traditional Chinese ones.
pub open spec fn chinese_labels(l: TrayLabels) -> bool {
    &&& l.toggle@ == "自動監聽剪貼簿"@
    &&& l.show@ == "打開主視窗"@
    &&& l.quit@ == "結束 FQEncoder"@
}

/// Whether the labels are the English ones.
pub open spec fn english_labels(l: TrayLabels) -> bool {
    &&& l.toggle@ == "Auto-monitor clipboard"@
    &&& l.show@ == "Open window"@
    &&& l.quit@ == "Quit FQEncoder"@
}

/// Whether a lower-cased string starts with `zh`.
fn starts_with_zh(s: &str) -> (r: bool)
    ensures
        r == is_chinese(s@),
{
    let chars = chars_of(s);
    chars.len() >= 2 && chars[0] == 'z' && chars[1] == 'h'
}

/// The tray labels for the system locale `locale` (if one is known).
pub fn tray_labels(locale: Option<&str>) -> (l: TrayLabels)
    ensures
        (locale matches Some(loc) && is_chinese(lowercase(loc@))) ==> chinese_labels(l),
        !(locale matches Some(loc) && is_chinese(lowercase(loc@))) ==> english_labels(l),
        (locale matches Some(loc) && seq!['z', 'h'].is_prefix_of(lowercase(loc@))) ==> chinese_labels(l),
        !(locale matches Some(loc) && seq!['z', 'h'].is_prefix_of(lowercase(loc@))) ==> english_labels(l),
{
    proof {
        if let Some(loc) = locale {
            lemma_chinese_is_zh_prefix(lowercase(loc@));
        }
    }
    let zh = match locale {
        Some(loc) => {
            let lowered = to_lower(loc);
            starts_with_zh(lowered.as_str())
        },
        None => false,
    };
    if zh {
        TrayLabels { toggle: "自動監聽剪貼簿", show: "打開主視窗", quit: "結束 FQEncoder" }
    } else {
        TrayLabels { toggle: "Auto-monitor clipboard", show: "Open window", quit: "Quit FQEncoder" }
    }
}

/// A lower-cased locale names Chinese exactly when it begins with `zh`,
/// whatever follows.
pub proof fn lemma_chinese_is_zh_prefix(lowered: Seq<char>)
    ensures
        is_chinese(lowered) <==> seq!['z', 'h'].is_prefix_of(lowered),
{
    if seq!['z', 'h'].is_prefix_of(lowered) {
        assert(lowered[0] == seq!['z', 'h'][0]);
        assert(lowered[1] == seq!['z', 'h'][1]);
    }
    if is_chinese(lowered) {
        assert(lowered.subrange(0, 2) =~= seq!['z', 'h']);
    }
}

} // verus!
