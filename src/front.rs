use vstd::prelude::*;

use crate::text::{chars_of, split, split_chars, string_of, trim, trim_chars, views};

verus! {

/// The cookie that records the colour-scheme choice.
pub open spec fn dark_mode_cookie_text(prefers_dark: bool) -> Seq<char> {
    if prefers_dark {
        "darkmode=true; Path=/"@
    } else {
        "darkmode=false; Path=/"@
    }
}

/// The `Set-Cookie` value that stores the choice of dark mode for the whole site.
pub fn dark_mode_cookie(prefers_dark: bool) -> (r: String)
    ensures
        r@ == dark_mode_cookie_text(prefers_dark),
{
    if prefers_dark {
        String::from_str("darkmode=true; Path=/")
    } else {
        String::from_str("darkmode=false; Path=/")
    }
}

/// `needle` occurs in `hay` at some position.
pub open spec fn occurs_in(needle: Seq<char>, hay: Seq<char>) -> bool {
    exists|i: int| 0 <= i && i + needle.len() <= hay.len() && #[trigger] hay.subrange(i, i + needle.len()) == needle
}

/// Whether the browser's cookies record a choice of dark mode.
pub fn prefers_dark_from_cookie(cookie: &str) -> (r: bool)
    ensures
        r == occurs_in("darkmode=true"@, cookie@),
{
    let hay = chars_of(cookie);
    let needle = chars_of("darkmode=true");
    let n = needle.len();
    if n > hay.len() {
        return false;
    }
    let mut i: usize = 0;
    let hl = hay.len();
    let last = hl - n;
    while i <= last
        invariant
            hl == hay@.len(),
            last == hl - n,
            i <= last + 1,
            n == needle@.len() <= hay@.len(),
            hay@ == cookie@,
            needle@ == "darkmode=true"@,
            forall|q: int| 0 <= q < i ==> #[trigger] hay@.subrange(q, q + n) != needle@,
        decreases last + 1 - i,
    {
        let mut k: usize = 0;
        let mut same = true;
        while same && k < n
            invariant
                k <= n,
                hl == hay@.len(),
                i + n <= hl,
                n == needle@.len(),
                forall|q: int| 0 <= q < k ==> hay@[i + q] == needle@[q],
                !same ==> k < n && hay@[i + k] != needle@[k as int],
            decreases n - k + (if same { 1int } else { 0 }),
        {
            if hay[i + k] == needle[k] {
                k = k + 1;
            } else {
                same = false;
            }
        }
        if k == n {
            assert(hay@.subrange(i as int, i + n) =~= needle@);
            return true;
        }
        assert(hay@.subrange(i as int, i + n)[k as int] != needle@[k as int]);
        i = i + 1;
    }
    assert forall|q: int| 0 <= q && q + n <= hay@.len() implies #[trigger] hay@.subrange(q, q + n) != needle@ by {
        assert(q < i);
    }
    assert(i == last + 1);
    false
}

/// Which scheme the page shows: a choice still being sent wins, then the last one
/// the server confirmed, then the one the page started with.
pub fn resolve_prefers_dark(pending: Option<bool>, confirmed: Option<Result<bool, ()>>, initial: bool) -> (r: bool)
    ensures
        r == match (pending, confirmed) {
            (Some(p), _) => p,
            (None, Some(Ok(c))) => c,
            _ => initial,
        },
{
    match (pending, confirmed) {
        (Some(p), _) => p,
        (None, Some(Ok(c))) => c,
        _ => initial,
    }
}

/// The value of the page's `color-scheme` setting.
pub fn color_scheme(prefers_dark: bool) -> (r: String)
    ensures
        r@ == (if prefers_dark { "dark"@ } else { "light"@ }),
{
    if prefers_dark {
        String::from_str("dark")
    } else {
        String::from_str("light")
    }
}

/// The caption of the button that switches scheme.
pub fn toggle_label(prefers_dark: bool) -> (r: String)
    ensures
        r@ == (if prefers_dark { "Switch to Light Mode"@ } else { "Switch to Dark Mode"@ }),
{
    if prefers_dark {
        String::from_str("Switch to Light Mode")
    } else {
        String::from_str("Switch to Dark Mode")
    }
}

/// The print-key codes of a search: the text cut at each comma, each piece trimmed.
pub fn search_rolls(sbls: &str) -> (r: Vec<String>)
    ensures
        r@.len() == split(sbls@, ',').len(),
        forall|k: int| 0 <= k < r@.len() ==> #[trigger] r@[k]@ == trim(split(sbls@, ',')[k]),
{
    let v = chars_of(sbls);
    let parts = split_chars(&v, ',');
    let mut out: Vec<String> = Vec::new();
    let mut i: usize = 0;
    while i < parts.len()
        invariant
            i <= parts@.len(),
            views(parts@) == split(sbls@, ','),
            v@ == sbls@,
            out@.len() == i,
            forall|k: int| 0 <= k < i ==> #[trigger] out@[k]@ == trim(split(sbls@, ',')[k]),
        decreases parts.len() - i,
    {
        assert(views(parts@)[i as int] == parts@[i as int]@);
        let t = trim_chars(&parts[i]);
        out.push(string_of(&t));
        i = i + 1;
    }
    out
}

} // verus!
