//! Icon resolution for window classes: `.desktop` parsing, matching a class
//! to an entry, icon theme lookup order and the disk cache's file names.

use vstd::prelude::*;
use vstd::utf8::*;
use crate::text::{
    chars_of, string_of, trim, trim_chars, lines_of, lines_chars, starts_with, strip_prefix,
    strip_prefix_chars, starts_with_chars, split_on, split_chars, contains, contains_chars, chars_eq,
    push_str_chars, push_chars, occurs_at, find_from,
};

verus! {

broadcast use vstd::seq::group_seq_axioms;

/// Cached result: either a resolved icon name/path or empty (no icon found).
#[derive(Debug)]
pub enum IconResult {
    /// An icon theme name (e.g., "firefox") — use with GTK Image::from_icon_name
    IconName(String),
    /// An absolute file path to an icon file
    FilePath(String),
    /// No icon found for this class
    NotFound,
}

/// Model of an icon result: names and paths as characters.
pub enum IconModel {
    IconName(Seq<char>),
    FilePath(Seq<char>),
    NotFound,
}

impl View for IconResult {
    type V = IconModel;

    open spec fn view(&self) -> IconModel {
        match self {
            IconResult::IconName(s) => IconModel::IconName(s@),
            IconResult::FilePath(p) => IconModel::FilePath(p@),
            IconResult::NotFound => IconModel::NotFound,
        }
    }
}

impl Clone for IconResult {
    fn clone(&self) -> (r: Self)
        ensures
            r@ == self@,
    {
        match self {
            IconResult::IconName(s) => IconResult::IconName(s.clone()),
            IconResult::FilePath(p) => IconResult::FilePath(p.clone()),
            IconResult::NotFound => IconResult::NotFound,
        }
    }
}

/// Pre-parsed .desktop file data.
pub struct DesktopEntry {
    pub path: String,
    pub basename_lower: String,
    pub startup_wm_class_lower: String,
    pub icon: String,
}

/// Reads the `[Desktop Entry]` section's `Icon=` and `StartupWMClass=` lines,
/// the last of each winning, up to the next section header.
pub open spec fn desktop_scan(lines: Seq<Seq<char>>, in_entry: bool, icon: Seq<char>, wm: Seq<char>)
    -> (Seq<char>, Seq<char>)
    decreases lines.len(),
{
    if lines.len() == 0 {
        (icon, wm)
    } else {
        let t = trim(lines[0]);
        let rest = lines.drop_first();
        if t == "[Desktop Entry]"@ {
            desktop_scan(rest, true, icon, wm)
        } else if starts_with(t, "["@) {
            if in_entry { (icon, wm) } else { desktop_scan(rest, false, icon, wm) }
        } else if in_entry {
            match strip_prefix(t, "Icon="@) {
                Some(v) => desktop_scan(rest, true, trim(v), wm),
                None => match strip_prefix(t, "StartupWMClass="@) {
                    Some(v) => desktop_scan(rest, true, icon, trim(v)),
                    None => desktop_scan(rest, true, icon, wm),
                },
            }
        } else {
            desktop_scan(rest, false, icon, wm)
        }
    }
}

/// Extract Icon= and StartupWMClass= from a .desktop file content.
pub fn parse_desktop_entry(content: &str) -> (r: (String, String))
    ensures
        (r.0@, r.1@) == desktop_scan(lines_of(content@), false, Seq::empty(), Seq::empty()),
{
    let cs = chars_of(content);
    let lines = lines_chars(cs.as_slice());
    let ghost ls = lines@.map_values(|v: Vec<char>| v@);
    let header = chars_of("[Desktop Entry]");
    let bracket = chars_of("[");
    let icon_key = chars_of("Icon=");
    let wm_key = chars_of("StartupWMClass=");
    let mut icon: Vec<char> = Vec::new();
    let mut wm: Vec<char> = Vec::new();
    let mut in_desktop_entry = false;
    let mut i: usize = 0;
    proof { assert(ls.skip(0) =~= ls); }
    while i < lines.len()
        invariant
            i <= lines@.len(),
            ls == lines@.map_values(|v: Vec<char>| v@),
            ls == lines_of(content@),
            header@ == "[Desktop Entry]"@,
            bracket@ == "["@,
            icon_key@ == "Icon="@,
            wm_key@ == "StartupWMClass="@,
            desktop_scan(ls, false, Seq::empty(), Seq::empty())
                == desktop_scan(ls.skip(i as int), in_desktop_entry, icon@, wm@),
        decreases lines@.len() - i,
    {
        proof {
            assert(ls.skip(i as int)[0] == lines@[i as int]@);
            assert(ls.skip(i as int).drop_first() =~= ls.skip(i + 1));
        }
        let trimmed = trim_chars(lines[i].as_slice());
        if chars_eq(trimmed.as_slice(), header.as_slice()) {
            in_desktop_entry = true;
            i += 1;
            continue;
        }
        if starts_with_chars(trimmed.as_slice(), bracket.as_slice()) {
            if in_desktop_entry {
                return (string_of(icon.as_slice()), string_of(wm.as_slice()));
            }
            i += 1;
            continue;
        }
        if in_desktop_entry {
            match strip_prefix_chars(trimmed.as_slice(), icon_key.as_slice()) {
                Some(v) => {
                    icon = trim_chars(v.as_slice());
                },
                None => match strip_prefix_chars(trimmed.as_slice(), wm_key.as_slice()) {
                    Some(v) => {
                        wm = trim_chars(v.as_slice());
                    },
                    None => {},
                },
            }
        }
        i += 1;
    }
    (string_of(icon.as_slice()), string_of(wm.as_slice()))
}

/// Abstract view of a desktop index: (basename, StartupWMClass, icon), lowercased as stored.
pub open spec fn index_view(v: Seq<DesktopEntry>) -> Seq<(Seq<char>, Seq<char>, Seq<char>)> {
    v.map_values(|e: DesktopEntry| (e.basename_lower@, e.startup_wm_class_lower@, e.icon@))
}

/// The entry a class matches by `StartupWMClass` (pass 1).
pub open spec fn match_wm_class(e: (Seq<char>, Seq<char>, Seq<char>), class: Seq<char>) -> bool {
    e.1.len() > 0 && e.1 == class
}

/// The entry a class matches by file name, or a `_`-separated part of it (pass 2).
pub open spec fn match_basename(e: (Seq<char>, Seq<char>, Seq<char>), class: Seq<char>) -> bool {
    split_on(e.0, '_').contains(class) || e.0 == class
}

/// The entry whose file name contains the class (pass 3).
pub open spec fn match_substring(e: (Seq<char>, Seq<char>, Seq<char>), class: Seq<char>) -> bool {
    contains(e.0, class)
}

/// Index of the first entry matched by `StartupWMClass`.
pub open spec fn first_wm(v: Seq<(Seq<char>, Seq<char>, Seq<char>)>, class: Seq<char>) -> Option<int> {
    if exists|i: int| 0 <= i < v.len() && match_wm_class(#[trigger] v[i], class) {
        Some(choose|i: int| 0 <= i < v.len() && match_wm_class(#[trigger] v[i], class)
            && forall|j: int| 0 <= j < i ==> !match_wm_class(v[j], class))
    } else {
        None
    }
}

/// Index of the first entry matched by file name.
pub open spec fn first_base(v: Seq<(Seq<char>, Seq<char>, Seq<char>)>, class: Seq<char>) -> Option<int> {
    if exists|i: int| 0 <= i < v.len() && match_basename(#[trigger] v[i], class) {
        Some(choose|i: int| 0 <= i < v.len() && match_basename(#[trigger] v[i], class)
            && forall|j: int| 0 <= j < i ==> !match_basename(v[j], class))
    } else {
        None
    }
}

/// Index of the first entry whose file name contains the class.
pub open spec fn first_sub(v: Seq<(Seq<char>, Seq<char>, Seq<char>)>, class: Seq<char>) -> Option<int> {
    if exists|i: int| 0 <= i < v.len() && match_substring(#[trigger] v[i], class) {
        Some(choose|i: int| 0 <= i < v.len() && match_substring(#[trigger] v[i], class)
            && forall|j: int| 0 <= j < i ==> !match_substring(v[j], class))
    } else {
        None
    }
}

/// The icon a class resolves to in a desktop index: the first entry by
/// `StartupWMClass`, else by file name, else by file name substring.
pub open spec fn find_icon(v: Seq<(Seq<char>, Seq<char>, Seq<char>)>, class: Seq<char>) -> Option<Seq<char>> {
    match first_wm(v, class) {
        Some(i) => Some(v[i].2),
        None => match first_base(v, class) {
            Some(i) => Some(v[i].2),
            None => match first_sub(v, class) {
                Some(i) => Some(v[i].2),
                None => None,
            },
        },
    }
}

fn wm_class_matches(e: &DesktopEntry, class: &Vec<char>) -> (r: bool)
    ensures
        r == match_wm_class((e.basename_lower@, e.startup_wm_class_lower@, e.icon@), class@),
{
    let w = chars_of(e.startup_wm_class_lower.as_str());
    w.len() > 0 && chars_eq(w.as_slice(), class.as_slice())
}

fn basename_matches(e: &DesktopEntry, class: &Vec<char>) -> (r: bool)
    ensures
        r == match_basename((e.basename_lower@, e.startup_wm_class_lower@, e.icon@), class@),
{
    let b = chars_of(e.basename_lower.as_str());
    let parts = split_chars(b.as_slice(), '_');
    let ghost pv = parts@.map_values(|v: Vec<char>| v@);
    let mut k: usize = 0;
    while k < parts.len()
        invariant
            k <= parts@.len(),
            b@ == e.basename_lower@,
            pv == parts@.map_values(|v: Vec<char>| v@),
            pv == split_on(b@, '_'),
            forall|j: int| 0 <= j < k ==> #[trigger] pv[j] != class@,
        decreases parts@.len() - k,
    {
        if chars_eq(parts[k].as_slice(), class.as_slice()) {
            proof {
                assert(pv[k as int] == class@);
                assert(pv.contains(class@));
            }
            return true;
        }
        k += 1;
    }
    chars_eq(b.as_slice(), class.as_slice())
}

fn substring_matches(e: &DesktopEntry, class: &Vec<char>) -> (r: bool)
    ensures
        r == match_substring((e.basename_lower@, e.startup_wm_class_lower@, e.icon@), class@),
{
    let b = chars_of(e.basename_lower.as_str());
    contains_chars(b.as_slice(), class.as_slice())
}


proof fn lemma_wm_at(v: Seq<(Seq<char>, Seq<char>, Seq<char>)>, c: Seq<char>, i: int)
    requires
        0 <= i < v.len(),
        match_wm_class(v[i], c),
        forall|j: int| 0 <= j < i ==> !match_wm_class(#[trigger] v[j], c),
    ensures
        first_wm(v, c) == Some(i),
{
    let k = choose|k: int| 0 <= k < v.len() && match_wm_class(#[trigger] v[k], c)
        && forall|j: int| 0 <= j < k ==> !match_wm_class(v[j], c);
    assert(k == i) by {
        if k < i { assert(!match_wm_class(v[k], c)); }
        if k > i { assert(!match_wm_class(v[i], c)); }
    }
}

fn first_wm_index(index: &Vec<DesktopEntry>, class: &Vec<char>) -> (r: Option<usize>)
    ensures
        (match r {
            Some(i) => i < index@.len() && first_wm(index_view(index@), class@) == Some(i as int),
            None => first_wm(index_view(index@), class@) is None,
        }),
{
    let ghost v = index_view(index@);
    let mut i: usize = 0;
    while i < index.len()
        invariant
            i <= index@.len(),
            v == index_view(index@),
            forall|j: int| 0 <= j < i ==> !match_wm_class(#[trigger] v[j], class@),
        decreases index@.len() - i,
    {
        if wm_class_matches(&index[i], class) {
            proof {
                assert(v[i as int] == (index@[i as int].basename_lower@, index@[i as int].startup_wm_class_lower@,
                    index@[i as int].icon@));
                lemma_wm_at(v, class@, i as int);
            }
            return Some(i);
        }
        proof {
            assert(v[i as int] == (index@[i as int].basename_lower@, index@[i as int].startup_wm_class_lower@,
                index@[i as int].icon@));
        }
        i += 1;
    }
    None
}

proof fn lemma_base_at(v: Seq<(Seq<char>, Seq<char>, Seq<char>)>, c: Seq<char>, i: int)
    requires
        0 <= i < v.len(),
        match_basename(v[i], c),
        forall|j: int| 0 <= j < i ==> !match_basename(#[trigger] v[j], c),
    ensures
        first_base(v, c) == Some(i),
{
    let k = choose|k: int| 0 <= k < v.len() && match_basename(#[trigger] v[k], c)
        && forall|j: int| 0 <= j < k ==> !match_basename(v[j], c);
    assert(k == i) by {
        if k < i { assert(!match_basename(v[k], c)); }
        if k > i { assert(!match_basename(v[i], c)); }
    }
}

fn first_base_index(index: &Vec<DesktopEntry>, class: &Vec<char>) -> (r: Option<usize>)
    ensures
        (match r {
            Some(i) => i < index@.len() && first_base(index_view(index@), class@) == Some(i as int),
            None => first_base(index_view(index@), class@) is None,
        }),
{
    let ghost v = index_view(index@);
    let mut i: usize = 0;
    while i < index.len()
        invariant
            i <= index@.len(),
            v == index_view(index@),
            forall|j: int| 0 <= j < i ==> !match_basename(#[trigger] v[j], class@),
        decreases index@.len() - i,
    {
        if basename_matches(&index[i], class) {
            proof {
                assert(v[i as int] == (index@[i as int].basename_lower@, index@[i as int].startup_wm_class_lower@,
                    index@[i as int].icon@));
                lemma_base_at(v, class@, i as int);
            }
            return Some(i);
        }
        proof {
            assert(v[i as int] == (index@[i as int].basename_lower@, index@[i as int].startup_wm_class_lower@,
                index@[i as int].icon@));
        }
        i += 1;
    }
    None
}

proof fn lemma_sub_at(v: Seq<(Seq<char>, Seq<char>, Seq<char>)>, c: Seq<char>, i: int)
    requires
        0 <= i < v.len(),
        match_substring(v[i], c),
        forall|j: int| 0 <= j < i ==> !match_substring(#[trigger] v[j], c),
    ensures
        first_sub(v, c) == Some(i),
{
    let k = choose|k: int| 0 <= k < v.len() && match_substring(#[trigger] v[k], c)
        && forall|j: int| 0 <= j < k ==> !match_substring(v[j], c);
    assert(k == i) by {
        if k < i { assert(!match_substring(v[k], c)); }
        if k > i { assert(!match_substring(v[i], c)); }
    }
}

fn first_sub_index(index: &Vec<DesktopEntry>, class: &Vec<char>) -> (r: Option<usize>)
    ensures
        (match r {
            Some(i) => i < index@.len() && first_sub(index_view(index@), class@) == Some(i as int),
            None => first_sub(index_view(index@), class@) is None,
        }),
{
    let ghost v = index_view(index@);
    let mut i: usize = 0;
    while i < index.len()
        invariant
            i <= index@.len(),
            v == index_view(index@),
            forall|j: int| 0 <= j < i ==> !match_substring(#[trigger] v[j], class@),
        decreases index@.len() - i,
    {
        if substring_matches(&index[i], class) {
            proof {
                assert(v[i as int] == (index@[i as int].basename_lower@, index@[i as int].startup_wm_class_lower@,
                    index@[i as int].icon@));
                lemma_sub_at(v, class@, i as int);
            }
            return Some(i);
        }
        proof {
            assert(v[i as int] == (index@[i as int].basename_lower@, index@[i as int].startup_wm_class_lower@,
                index@[i as int].icon@));
        }
        i += 1;
    }
    None
}

/// The icon name of the desktop entry a (lowercased) window class belongs to.
pub fn find_icon_name(index: &Vec<DesktopEntry>, wm_class_lower: &str) -> (r: Option<String>)
    ensures
        (match r {
            Some(s) => find_icon(index_view(index@), wm_class_lower@) == Some(s@),
            None => find_icon(index_view(index@), wm_class_lower@) is None,
        }),
{
    let class = chars_of(wm_class_lower);
    let found = match first_wm_index(index, &class) {
        Some(i) => Some(i),
        None => match first_base_index(index, &class) {
            Some(i) => Some(i),
            None => first_sub_index(index, &class),
        },
    };
    match found {
        Some(i) => {
            proof {
                assert(index_view(index@)[i as int].2 == index@[i as int].icon@);
            }
            Some(index[i].icon.clone())
        },
        None => None,
    }
}

/// Preferred icon sizes, in lookup order.
pub open spec fn icon_sizes() -> Seq<Seq<char>> {
    seq!["48x48"@, "64x64"@, "scalable"@, "256x256"@, "128x128"@, "96x96"@, "32x32"@, "24x24"@, "16x16"@]
}

/// Icon file extensions, in lookup order.
pub open spec fn icon_exts() -> Seq<Seq<char>> {
    seq!["svg"@, "png"@, "xpm"@]
}

/// Icon theme directories, in lookup order.
pub open spec fn icon_themes() -> Seq<Seq<char>> {
    seq!["/usr/share/icons/hicolor"@, "/usr/share/icons/Adwaita"@]
}

/// `Path::join`: an absolute component replaces the base, otherwise it is appended after `/`.
pub open spec fn join(base: Seq<char>, comp: Seq<char>) -> Seq<char> {
    if starts_with(comp, "/"@) { comp } else { base + "/"@ + comp }
}

/// The file name `name.ext`.
pub open spec fn icon_file(name: Seq<char>, ext: Seq<char>) -> Seq<char> {
    name + "."@ + ext
}

/// Candidates in one directory, one per extension.
pub open spec fn ext_paths(dir: Seq<char>, name: Seq<char>, exts: Seq<Seq<char>>) -> Seq<Seq<char>>
    decreases exts.len(),
{
    if exts.len() == 0 {
        Seq::empty()
    } else {
        seq![join(dir, icon_file(name, exts[0]))] + ext_paths(dir, name, exts.drop_first())
    }
}

/// Candidates in a theme, size by size.
pub open spec fn size_paths(theme: Seq<char>, sizes: Seq<Seq<char>>, name: Seq<char>) -> Seq<Seq<char>>
    decreases sizes.len(),
{
    if sizes.len() == 0 {
        Seq::empty()
    } else {
        ext_paths(join(join(theme, sizes[0]), "apps"@), name, icon_exts()) + size_paths(theme, sizes.drop_first(), name)
    }
}

/// Candidates theme by theme.
pub open spec fn theme_paths(themes: Seq<Seq<char>>, name: Seq<char>) -> Seq<Seq<char>>
    decreases themes.len(),
{
    if themes.len() == 0 {
        Seq::empty()
    } else {
        size_paths(themes[0], icon_sizes(), name) + theme_paths(themes.drop_first(), name)
    }
}

/// Fallback candidates in the pixmaps directory.
pub open spec fn pixmap_paths(name: Seq<char>, exts: Seq<Seq<char>>) -> Seq<Seq<char>>
    decreases exts.len(),
{
    if exts.len() == 0 {
        Seq::empty()
    } else {
        seq!["/usr/share/pixmaps/"@ + icon_file(name, exts[0])] + pixmap_paths(name, exts.drop_first())
    }
}

/// Every file an icon name may be found at, in lookup order.
pub open spec fn icon_candidates_for(name: Seq<char>) -> Seq<Seq<char>> {
    theme_paths(icon_themes(), name) + pixmap_paths(name, icon_exts())
}

fn join_chars(base: &Vec<char>, comp: &Vec<char>) -> (r: Vec<char>)
    ensures
        r@ == join(base@, comp@),
{
    let slash = chars_of("/");
    if starts_with_chars(comp.as_slice(), slash.as_slice()) {
        vstd::slice::slice_to_vec(comp.as_slice())
    } else {
        let mut r = vstd::slice::slice_to_vec(base.as_slice());
        r.push('/');
        let mut i: usize = 0;
        let ghost r0 = r@;
        while i < comp.len()
            invariant
                i <= comp@.len(),
                r@ == r0 + comp@.take(i as int),
            decreases comp@.len() - i,
        {
            r.push(comp[i]);
            i += 1;
            assert(r@ =~= r0 + comp@.take(i as int));
        }
        proof {
            reveal_strlit("/");
            assert(comp@.take(i as int) =~= comp@);
            assert(r@ =~= base@ + "/"@ + comp@);
        }
        r
    }
}

fn concat_chars(a: &Vec<char>, b: &Vec<char>) -> (r: Vec<char>)
    ensures
        r@ == a@ + b@,
{
    let mut r = vstd::slice::slice_to_vec(a.as_slice());
    let mut i: usize = 0;
    while i < b.len()
        invariant
            i <= b@.len(),
            r@ == a@ + b@.take(i as int),
        decreases b@.len() - i,
    {
        r.push(b[i]);
        i += 1;
        assert(r@ =~= a@ + b@.take(i as int));
    }
    assert(b@.take(i as int) =~= b@);
    r
}

fn icon_file_chars(name: &Vec<char>, ext: &str) -> (r: Vec<char>)
    ensures
        r@ == icon_file(name@, ext@),
{
    let dot = chars_of(".");
    let e = chars_of(ext);
    let a = concat_chars(name, &dot);
    concat_chars(&a, &e)
}

fn exts_vec() -> (r: Vec<&'static str>)
    ensures
        r@.map_values(|s: &str| s@) == icon_exts(),
{
    let r = vec!["svg", "png", "xpm"];
    assert(r@.map_values(|s: &str| s@) =~= icon_exts());
    r
}

/// Candidates in one directory, appended to `out`.
fn push_ext_paths(out: &mut Vec<String>, dir: &Vec<char>, name: &Vec<char>)
    ensures
        out_view(final(out)@) == out_view(old(out)@) + ext_paths(dir@, name@, icon_exts()),
{
    let exts = exts_vec();
    let ghost ev = exts@.map_values(|s: &str| s@);
    let mut k: usize = 0;
    proof { assert(ev.skip(0) =~= ev); }
    while k < exts.len()
        invariant
            k <= exts@.len(),
            ev == exts@.map_values(|s: &str| s@),
            ev == icon_exts(),
            out_view(old(out)@) + ext_paths(dir@, name@, ev)
                == out_view(out@) + ext_paths(dir@, name@, ev.skip(k as int)),
        decreases exts@.len() - k,
    {
        proof {
            assert(ev.skip(k as int)[0] == exts@[k as int]@);
            assert(ev.skip(k as int).drop_first() =~= ev.skip(k + 1));
        }
        let f = icon_file_chars(name, exts[k]);
        let p = join_chars(dir, &f);
        let ghost before = out_view(out@);
        out.push(crate::text::string_of(p.as_slice()));
        proof { assert(out_view(out@) =~= before.push(p@)); }
        k += 1;
    }
    proof { assert(ev.skip(k as int) =~= Seq::<Seq<char>>::empty()); }
}

/// Views of a vector of strings.
pub open spec fn out_view(v: Seq<String>) -> Seq<Seq<char>> {
    v.map_values(|s: String| s@)
}

/// Every file an icon name may be found at, in lookup order.
pub fn icon_candidates(icon_name: &str) -> (r: Vec<String>)
    ensures
        out_view(r@) == icon_candidates_for(icon_name@),
{
    let name = chars_of(icon_name);
    let themes = vec!["/usr/share/icons/hicolor", "/usr/share/icons/Adwaita"];
    let sizes = vec!["48x48", "64x64", "scalable", "256x256", "128x128", "96x96", "32x32", "24x24", "16x16"];
    let ghost tv = themes@.map_values(|s: &str| s@);
    let ghost sv = sizes@.map_values(|s: &str| s@);
    proof {
        assert(tv =~= icon_themes());
        assert(sv =~= icon_sizes());
        assert(tv.skip(0) =~= tv);
    }
    let apps = chars_of("apps");
    let mut out: Vec<String> = Vec::new();
    let mut t: usize = 0;
    proof { assert(out_view(out@) + theme_paths(tv, name@) =~= theme_paths(tv, name@)); }
    while t < themes.len()
        invariant
            t <= themes@.len(),
            tv == themes@.map_values(|s: &str| s@),
            sv == sizes@.map_values(|s: &str| s@),
            tv == icon_themes(),
            sv == icon_sizes(),
            apps@ == "apps"@,
            name@ == icon_name@,
            theme_paths(tv, name@) == out_view(out@) + theme_paths(tv.skip(t as int), name@),
        decreases themes@.len() - t,
    {
        proof {
            assert(tv.skip(t as int)[0] == themes@[t as int]@);
            assert(tv.skip(t as int).drop_first() =~= tv.skip(t + 1));
        }
        let theme = chars_of(themes[t]);
        let ghost before = out_view(out@);
        let mut s: usize = 0;
        proof { assert(sv.skip(0) =~= sv); }
        while s < sizes.len()
            invariant
                s <= sizes@.len(),
                sv == sizes@.map_values(|s: &str| s@),
                sv == icon_sizes(),
                apps@ == "apps"@,
                before + size_paths(theme@, sv, name@) == out_view(out@) + size_paths(theme@, sv.skip(s as int), name@),
            decreases sizes@.len() - s,
        {
            proof {
                assert(sv.skip(s as int)[0] == sizes@[s as int]@);
                assert(sv.skip(s as int).drop_first() =~= sv.skip(s + 1));
            }
            let size = chars_of(sizes[s]);
            let d1 = join_chars(&theme, &size);
            let dir = join_chars(&d1, &apps);
            push_ext_paths(&mut out, &dir, &name);
            s += 1;
        }
        proof { assert(sv.skip(s as int) =~= Seq::<Seq<char>>::empty()); }
        t += 1;
    }
    proof { assert(tv.skip(t as int) =~= Seq::<Seq<char>>::empty()); }
    let exts = exts_vec();
    let ghost ev = exts@.map_values(|s: &str| s@);
    let prefix = chars_of("/usr/share/pixmaps/");
    let ghost mid = out_view(out@);
    let mut k: usize = 0;
    proof { assert(ev.skip(0) =~= ev); }
    while k < exts.len()
        invariant
            k <= exts@.len(),
            ev == exts@.map_values(|s: &str| s@),
            ev == icon_exts(),
            prefix@ == "/usr/share/pixmaps/"@,
            name@ == icon_name@,
            mid + pixmap_paths(name@, ev) == out_view(out@) + pixmap_paths(name@, ev.skip(k as int)),
        decreases exts@.len() - k,
    {
        proof {
            assert(ev.skip(k as int)[0] == exts@[k as int]@);
            assert(ev.skip(k as int).drop_first() =~= ev.skip(k + 1));
        }
        let f = icon_file_chars(&name, exts[k]);
        let p = concat_chars(&prefix, &f);
        let ghost before = out_view(out@);
        out.push(crate::text::string_of(p.as_slice()));
        proof { assert(out_view(out@) =~= before.push(p@)); }
        k += 1;
    }
    proof { assert(ev.skip(k as int) =~= Seq::<Seq<char>>::empty()); }
    out
}

/// `present` was asked about a path with these characters and answered `b`.
pub open spec fn answered<F: Fn(&str) -> bool>(present: F, path: Seq<char>, b: bool) -> bool {
    exists|s: &str| s@ == path && #[trigger] present.ensures((s,), b)
}

/// The first candidate that `present` reports present: every earlier candidate
/// was reported absent; with `None`, all were.
pub fn first_existing<F: Fn(&str) -> bool>(cands: &Vec<String>, present: &F) -> (r: Option<String>)
    requires
        forall|s: &str| #[trigger] present.requires((s,)),
    ensures
        (match r {
            Some(p) => exists|k: int| 0 <= k < cands@.len() && #[trigger] cands@[k]@ == p@
                && answered(*present, p@, true)
                && forall|j: int| 0 <= j < k ==> answered(*present, #[trigger] cands@[j]@, false),
            None => forall|j: int| 0 <= j < cands@.len() ==> answered(*present, #[trigger] cands@[j]@, false),
        }),
{
    let mut i: usize = 0;
    while i < cands.len()
        invariant
            i <= cands@.len(),
            forall|s: &str| #[trigger] present.requires((s,)),
            forall|j: int| 0 <= j < i ==> answered(*present, #[trigger] cands@[j]@, false),
        decreases cands@.len() - i,
    {
        let c = cands[i].as_str();
        let found = present(c);
        if found {
            proof { assert(answered(*present, cands@[i as int]@, true)); }
            return Some(cands[i].clone());
        }
        proof { assert(answered(*present, cands@[i as int]@, false)); }
        i += 1;
    }
    None
}

/// Search common icon theme directories for an icon by name.
pub fn resolve_icon_in_theme<F: Fn(&str) -> bool>(icon_name: &str, present: &F) -> (r: Option<String>)
    requires
        forall|s: &str| #[trigger] present.requires((s,)),
    ensures
        (match r {
            Some(p) => exists|k: int| 0 <= k < icon_candidates_for(icon_name@).len()
                && #[trigger] icon_candidates_for(icon_name@)[k] == p@ && answered(*present, p@, true)
                && forall|j: int| 0 <= j < k ==> answered(*present, #[trigger] icon_candidates_for(icon_name@)[j], false),
            None => forall|j: int| 0 <= j < icon_candidates_for(icon_name@).len()
                ==> answered(*present, #[trigger] icon_candidates_for(icon_name@)[j], false),
        }),
{
    let cands = icon_candidates(icon_name);
    let r = first_existing(&cands, present);
    proof {
        assert forall|j: int| 0 <= j < cands@.len() implies #[trigger] out_view(cands@)[j] == cands@[j]@ by {}
        match &r {
            Some(p) => {
                let k = choose|k: int| 0 <= k < cands@.len() && #[trigger] cands@[k]@ == p@
                    && answered(*present, p@, true)
                    && forall|j: int| 0 <= j < k ==> answered(*present, #[trigger] cands@[j]@, false);
                assert(icon_candidates_for(icon_name@)[k] == p@);
                assert forall|j: int| 0 <= j < k implies answered(*present, #[trigger] icon_candidates_for(icon_name@)[j], false) by {
                    assert(icon_candidates_for(icon_name@)[j] == cands@[j]@);
                }
            },
            None => {
                assert forall|j: int| 0 <= j < icon_candidates_for(icon_name@).len()
                    implies answered(*present, #[trigger] icon_candidates_for(icon_name@)[j], false) by {
                    assert(icon_candidates_for(icon_name@)[j] == cands@[j]@);
                }
            },
        }
    }
    r
}

/// What an icon name found for a class resolves to: nothing for an empty
/// name, an absolute path if that file exists, a themed file if one is
/// found, and otherwise the name itself for the toolkit to look up.
pub open spec fn named_icon_ok<F: Fn(&str) -> bool>(present: F, name: Seq<char>, r: IconModel) -> bool {
    if name.len() == 0 {
        r == IconModel::NotFound
    } else if starts_with(name, "/"@) {
        (r == IconModel::FilePath(name) && answered(present, name, true))
            || (r == IconModel::NotFound && answered(present, name, false))
    } else {
        match r {
            IconModel::FilePath(p) => icon_candidates_for(name).contains(p) && answered(present, p, true),
            IconModel::IconName(n) => n == name && forall|j: int| 0 <= j < icon_candidates_for(name).len()
                ==> answered(present, #[trigger] icon_candidates_for(name)[j], false),
            IconModel::NotFound => false,
        }
    }
}

/// Resolve an icon name to an IconResult.
pub fn resolve_icon<F: Fn(&str) -> bool>(icon_name: &str, present: &F) -> (r: IconResult)
    requires
        forall|s: &str| #[trigger] present.requires((s,)),
    ensures
        named_icon_ok(*present, icon_name@, r@),
{
    let name = chars_of(icon_name);
    let slash = chars_of("/");
    if name.len() == 0 {
        return IconResult::NotFound;
    }
    if starts_with_chars(name.as_slice(), slash.as_slice()) {
        if present(icon_name) {
            return IconResult::FilePath(icon_name.to_owned());
        }
        return IconResult::NotFound;
    }
    match resolve_icon_in_theme(icon_name, present) {
        Some(path) => {
            proof {
                let k = choose|k: int| 0 <= k < icon_candidates_for(icon_name@).len()
                    && #[trigger] icon_candidates_for(icon_name@)[k] == path@ && answered(*present, path@, true)
                    && forall|j: int| 0 <= j < k ==> answered(*present, #[trigger] icon_candidates_for(icon_name@)[j], false);
                assert(icon_candidates_for(icon_name@).contains(path@));
            }
            IconResult::FilePath(path)
        },
        None => IconResult::IconName(icon_name.to_owned()),
    }
}

/// What a found icon name resolves to (`None`: no desktop entry matched).
pub fn resolve_found<F: Fn(&str) -> bool>(icon_name: Option<String>, present: &F) -> (r: IconResult)
    requires
        forall|s: &str| #[trigger] present.requires((s,)),
    ensures
        (match icon_name {
            None => r@ == IconModel::NotFound,
            Some(n) => named_icon_ok(*present, n@, r@),
        }),
{
    match icon_name {
        None => IconResult::NotFound,
        Some(name) => resolve_icon(name.as_str(), present),
    }
}

/// The text stored in the disk cache for a result.
pub open spec fn cache_text(r: IconModel) -> Seq<char> {
    match r {
        IconModel::IconName(n) => n,
        IconModel::FilePath(p) => p,
        IconModel::NotFound => Seq::empty(),
    }
}

pub fn cache_content(result: &IconResult) -> (r: String)
    ensures
        r@ == cache_text(result@),
{
    match result {
        IconResult::IconName(name) => name.clone(),
        IconResult::FilePath(p) => p.clone(),
        IconResult::NotFound => String::new(),
    }
}

/// What a disk cache entry says: nothing cached for empty text, a path if
/// the file still exists (`None`, a stale entry, if it does not), or a name.
pub open spec fn cache_entry_ok<F: Fn(&str) -> bool>(present: F, text: Seq<char>, r: Option<IconModel>) -> bool {
    let t = trim(text);
    if t.len() == 0 {
        r == Some(IconModel::NotFound)
    } else if starts_with(t, "/"@) {
        (r == Some(IconModel::FilePath(t)) && answered(present, t, true))
            || (r is None && answered(present, t, false))
    } else {
        r == Some(IconModel::IconName(t))
    }
}

pub open spec fn opt_icon(r: Option<IconResult>) -> Option<IconModel> {
    match r {
        Some(x) => Some(x@),
        None => None,
    }
}

/// Reads a disk cache entry; `None` means the cached path is gone.
pub fn decode_disk_cache<F: Fn(&str) -> bool>(content: &str, present: &F) -> (r: Option<IconResult>)
    requires
        forall|s: &str| #[trigger] present.requires((s,)),
    ensures
        cache_entry_ok(*present, content@, opt_icon(r)),
{
    let cs = chars_of(content);
    let t = trim_chars(cs.as_slice());
    if t.len() == 0 {
        return Some(IconResult::NotFound);
    }
    let slash = chars_of("/");
    let ts = string_of(t.as_slice());
    if starts_with_chars(t.as_slice(), slash.as_slice()) {
        if present(ts.as_str()) {
            return Some(IconResult::FilePath(ts));
        }
        return None;
    }
    Some(IconResult::IconName(ts))
}

/// FNV-1a over bytes, 64-bit.
pub open spec fn fnv1a(bs: Seq<u8>) -> u64
    decreases bs.len(),
{
    if bs.len() == 0 {
        0xcbf29ce484222325
    } else {
        ((((fnv1a(bs.drop_last()) ^ (bs.last() as u64)) as nat) * 0x100000001b3nat) % 0x1_0000_0000_0000_0000nat) as u64
    }
}

/// The hex digit of a value below 16.
pub open spec fn hex_digit(d: nat) -> char {
    if d < 10 { ('0' as u32 + d) as char } else { ('a' as u32 + d - 10) as char }
}

/// The `n` low hex digits of `x`, most significant first.
pub open spec fn hex_n(x: nat, n: nat) -> Seq<char>
    decreases n,
{
    if n == 0 { Seq::empty() } else { hex_n(x / 16, (n - 1) as nat).push(hex_digit(x % 16)) }
}

pub(crate) fn hex_digit_char(d: u64) -> (c: char)
    requires
        d < 16,
    ensures
        c == hex_digit(d as nat),
{
    if d < 10 {
        crate::text::char_of_digit(d as u32)
    } else {
        crate::text::ascii_char(97 + (d - 10) as u32)
    }
}

fn hex_chars(x: u64, n: u32) -> (r: Vec<char>)
    ensures
        r@ == hex_n(x as nat, n as nat),
    decreases n,
{
    if n == 0 {
        Vec::new()
    } else {
        let mut r = hex_chars(x / 16, n - 1);
        r.push(hex_digit_char(x % 16));
        r
    }
}

/// Simple string hash for disk cache filenames.
pub fn simple_hash(s: &str) -> (r: String)
    ensures
        r@ == hex_n(fnv1a(encode_utf8(s@)) as nat, 16),
{
    let bytes = s.as_bytes();
    let mut hash: u64 = 0xcbf29ce484222325;
    let mut i: usize = 0;
    proof { assert(bytes@.take(0) =~= Seq::<u8>::empty()); }
    while i < bytes.len()
        invariant
            i <= bytes@.len(),
            hash == fnv1a(bytes@.take(i as int)),
        decreases bytes@.len() - i,
    {
        proof { assert(bytes@.take(i + 1).drop_last() =~= bytes@.take(i as int)); }
        hash = hash ^ (bytes[i] as u64);
        hash = hash.wrapping_mul(0x100000001b3);
        i += 1;
    }
    proof { assert(bytes@.take(i as int) =~= bytes@); }
    let digits = hex_chars(hash, 16);
    string_of(digits.as_slice())
}

/// When no entry matches by `StartupWMClass` or by file name, the icon is
/// that of the first entry whose file name holds the class anywhere in it.
pub proof fn lemma_substring_fallback(v: Seq<(Seq<char>, Seq<char>, Seq<char>)>, class: Seq<char>, k: int, p: int)
    requires
        forall|i: int| 0 <= i < v.len() ==> !match_wm_class(#[trigger] v[i], class) && !match_basename(v[i], class),
        0 <= k < v.len(),
        occurs_at(v[k].0, class, p),
        forall|j: int, q: int| 0 <= j < k ==> !#[trigger] occurs_at(v[j].0, class, q),
    ensures
        find_icon(v, class) == Some(v[k].2),
{
    crate::text::lemma_find_from(v[k].0, class, 0);
    assert(match_substring(v[k], class));
    assert forall|j: int| 0 <= j < k implies !match_substring(#[trigger] v[j], class) by {
        crate::text::lemma_find_from(v[j].0, class, 0);
        if let Some(f) = find_from(v[j].0, class, 0) {
            assert(occurs_at(v[j].0, class, f));
        }
    }
    assert(first_wm(v, class) is None);
    assert(first_base(v, class) is None);
    let f = first_sub(v, class)->0;
    assert(first_sub(v, class) is Some);
    if f < k {
        assert(!match_substring(v[f], class));
    }
    if f > k {
        assert(!match_substring(v[k], class));
    }
}

/// The first entry whose `StartupWMClass` is the class wins, whatever the
/// file names say.
pub proof fn lemma_wm_class_first(v: Seq<(Seq<char>, Seq<char>, Seq<char>)>, class: Seq<char>, k: int)
    requires
        0 <= k < v.len(),
        class.len() > 0,
        v[k].1 == class,
        forall|j: int| 0 <= j < k ==> #[trigger] v[j].1 != class,
    ensures
        find_icon(v, class) == Some(v[k].2),
{
    assert(match_wm_class(v[k], class));
    let f = first_wm(v, class)->0;
    assert(first_wm(v, class) is Some);
    if f < k {
        assert(!match_wm_class(v[f], class));
    }
    if f > k {
        assert(!match_wm_class(v[k], class));
    }
}

/// With no `StartupWMClass` match, the first entry whose file name is the
/// class, or has the class as one of its `_`-separated parts, wins over
/// entries whose file name merely holds the class.
pub proof fn lemma_basename_second(v: Seq<(Seq<char>, Seq<char>, Seq<char>)>, class: Seq<char>, k: int)
    requires
        forall|i: int| 0 <= i < v.len() ==> !(#[trigger] v[i].1.len() > 0 && v[i].1 == class),
        0 <= k < v.len(),
        v[k].0 == class || split_on(v[k].0, '_').contains(class),
        forall|j: int| 0 <= j < k ==> !(#[trigger] v[j].0 == class || split_on(v[j].0, '_').contains(class)),
    ensures
        find_icon(v, class) == Some(v[k].2),
{
    assert forall|i: int| 0 <= i < v.len() implies !match_wm_class(#[trigger] v[i], class) by {
        assert(!(v[i].1.len() > 0 && v[i].1 == class));
    }
    assert(first_wm(v, class) is None);
    assert(match_basename(v[k], class));
    let f = first_base(v, class)->0;
    assert(first_base(v, class) is Some);
    if f < k {
        assert(!(v[f].0 == class || split_on(v[f].0, '_').contains(class)));
    }
    if f > k {
        assert(!match_basename(v[k], class));
    }
}

} // verus!
