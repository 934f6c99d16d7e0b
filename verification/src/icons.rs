use vstd::prelude::*;
use vstd::utf8::encode_utf8;

use crate::encoding::{base64, base64_encode};
use crate::text::{
    ascii_lower, contains_bytes, contains_seq, occurs_at, eq_ignore_ascii_case, lossy_text, lowercase, push_char,
    std_utf8_lossy, to_lowercase, trim_text, trimmed,
};

verus! {

/// `s` ends with `suffix`.
pub open spec fn ends_with<T>(s: Seq<T>, suffix: Seq<T>) -> bool {
    suffix.len() <= s.len() && s.subrange(s.len() - suffix.len(), s.len() as int) == suffix
}

/// The UTF-8 bytes of `.app`.
pub open spec fn app_suffix() -> Seq<u8> {
    seq![46u8, 97u8, 112u8, 112u8]
}

/// The UTF-8 bytes of `.icns`.
pub open spec fn icns_suffix() -> Seq<u8> {
    seq![46u8, 105u8, 99u8, 110u8, 115u8]
}

/// The UTF-8 bytes of `icns`.
pub open spec fn icns_ext() -> Seq<u8> {
    seq![105u8, 99u8, 110u8, 115u8]
}

/// The UTF-8 bytes of `icon`.
pub open spec fn icon_word() -> Seq<u8> {
    seq![105u8, 99u8, 111u8, 110u8]
}

/// The UTF-8 bytes of `appicon`.
pub open spec fn appicon_word() -> Seq<u8> {
    seq![97u8, 112u8, 112u8, 105u8, 99u8, 111u8, 110u8]
}

fn ends_with_bytes(s: &[u8], suffix: &[u8]) -> (r: bool)
    ensures
        r == ends_with(s@, suffix@),
{
    let n = s.len();
    let m = suffix.len();
    if m > n {
        return false;
    }
    let mut k: usize = 0;
    while k < m
        invariant
            n == s@.len(),
            m == suffix@.len(),
            m <= n,
            k <= m,
            forall|t: int| 0 <= t < k ==> s@[n - m + t] == suffix@[t],
        decreases m - k,
    {
        if s[n - m + k] != suffix[k] {
            assert(s@.subrange(n - m, n as int)[k as int] != suffix@[k as int]);
            return false;
        }
        k = k + 1;
    }
    assert(s@.subrange(n - m, n as int) =~= suffix@);
    true
}

/// Whether a path names an application bundle (its text ends with `.app`).
pub fn is_app_bundle(path: &str) -> (r: bool)
    ensures
        r == ends_with(encode_utf8(path@), app_suffix()),
{
    let suffix: [u8; 4] = [46, 97, 112, 112];
    assert(suffix@ =~= app_suffix());
    ends_with_bytes(path.as_bytes(), suffix.as_slice())
}

/// The file names to try for a bundle's icon named in its `Info.plist`:
/// the name itself, then the name with `.icns` appended unless it already
/// ends with `.icns`.
pub open spec fn icon_file_candidates(name: Seq<char>) -> Seq<Seq<char>> {
    if ends_with(encode_utf8(name), icns_suffix()) {
        seq![name]
    } else {
        seq![name, name + seq!['.', 'i', 'c', 'n', 's']]
    }
}

/// Lists the file names to try for a bundle's icon named in its plist.
pub fn icns_candidates(icon_name: &str) -> (c: Vec<String>)
    ensures
        c@.map_values(|s: String| s@) == icon_file_candidates(icon_name@),
{
    let suffix: [u8; 5] = [46, 105, 99, 110, 115];
    assert(suffix@ =~= icns_suffix());
    let mut c: Vec<String> = Vec::new();
    c.push(String::from_str(icon_name));
    if !ends_with_bytes(icon_name.as_bytes(), suffix.as_slice()) {
        let mut with_ext = String::from_str(icon_name);
        push_char(&mut with_ext, '.');
        push_char(&mut with_ext, 'i');
        push_char(&mut with_ext, 'c');
        push_char(&mut with_ext, 'n');
        push_char(&mut with_ext, 's');
        assert(with_ext@ =~= icon_name@ + seq!['.', 'i', 'c', 'n', 's']);
        c.push(with_ext);
        assert(c@.map_values(|s: String| s@) =~= icon_file_candidates(icon_name@));
    } else {
        assert(c@.map_values(|s: String| s@) =~= icon_file_candidates(icon_name@));
    }
    c
}

/// A file of a bundle's `Contents/Resources` directory: its path, whether
/// it is a regular file, its extension (if any) and its file stem.
#[derive(Debug)]
pub struct ResourceFile {
    pub path: String,
    pub is_file: bool,
    pub extension: Option<String>,
    pub stem: String,
}

/// A resource file as plain values.
pub open spec fn resource_view(f: ResourceFile) -> (Seq<char>, bool, Option<Seq<char>>, Seq<char>) {
    (
        f.path@,
        f.is_file,
        match f.extension {
            Some(e) => Some(e@),
            None => None,
        },
        f.stem@,
    )
}

/// A regular file whose extension is `icns`, letters compared without
/// regard to ASCII case.
pub open spec fn is_icns_file(f: (Seq<char>, bool, Option<Seq<char>>, Seq<char>)) -> bool {
    f.1 && match f.2 {
        Some(e) => {
            let b = encode_utf8(e);
            b.len() == icns_ext().len() && forall|i: int|
                0 <= i < b.len() ==> ascii_lower(#[trigger] b[i]) == ascii_lower(icns_ext()[i])
        },
        None => false,
    }
}

/// A file whose lowercased stem contains `appicon` or `icon`.
pub open spec fn looks_like_app_icon(f: (Seq<char>, bool, Option<Seq<char>>, Seq<char>)) -> bool {
    let s = encode_utf8(lowercase(f.3));
    contains_seq(s, appicon_word()) || contains_seq(s, icon_word())
}

fn is_icns_exec(f: &ResourceFile) -> (r: bool)
    ensures
        r == is_icns_file(resource_view(*f)),
{
    if !f.is_file {
        return false;
    }
    match &f.extension {
        Some(e) => {
            let want: [u8; 4] = [105, 99, 110, 115];
            assert(want@ =~= icns_ext());
            eq_ignore_ascii_case(e.as_str().as_bytes(), want.as_slice())
        },
        None => false,
    }
}

fn looks_like_app_icon_exec(f: &ResourceFile) -> (r: bool)
    ensures
        r == looks_like_app_icon(resource_view(*f)),
{
    let lower = to_lowercase(f.stem.as_str());
    let appicon: [u8; 7] = [97, 112, 112, 105, 99, 111, 110];
    let icon: [u8; 4] = [105, 99, 111, 110];
    assert(appicon@ =~= appicon_word());
    assert(icon@ =~= icon_word());
    let bytes = lower.as_str().as_bytes();
    let a = appicon.as_slice();
    let b = icon.as_slice();
    assert(a@ == appicon_word());
    assert(b@ == icon_word());
    assert(bytes@ == encode_utf8(lowercase(f.stem@)));
    let r1 = contains_bytes(bytes, a);
    let r2 = contains_bytes(bytes, b);
    r1 || r2
}

/// Picks the icon among a bundle's resource files, in their listing order:
/// the first `.icns` file whose stem mentions "icon" (or "appicon"); failing
/// that, the first `.icns` file; `None` when there is none.
pub fn choose_icns(files: &Vec<ResourceFile>) -> (r: Option<usize>)
    ensures
        match r {
            Some(i) => {
                &&& i < files@.len()
                &&& is_icns_file(resource_view(files@[i as int]))
                &&& if looks_like_app_icon(resource_view(files@[i as int])) {
                    forall|j: int|
                        0 <= j < i ==> !(is_icns_file(resource_view(#[trigger] files@[j]))
                            && looks_like_app_icon(resource_view(files@[j])))
                } else {
                    &&& forall|j: int|
                        0 <= j < files@.len() ==> !(is_icns_file(
                            resource_view(#[trigger] files@[j]),
                        ) && looks_like_app_icon(resource_view(files@[j])))
                    &&& forall|j: int|
                        0 <= j < i ==> !is_icns_file(resource_view(#[trigger] files@[j]))
                }
            },
            None => forall|j: int|
                0 <= j < files@.len() ==> !is_icns_file(resource_view(#[trigger] files@[j])),
        },
{
    let n = files.len();
    let mut first: Option<usize> = None;
    let mut k: usize = 0;
    while k < n
        invariant
            n == files@.len(),
            k <= n,
            forall|j: int|
                0 <= j < k ==> !(is_icns_file(resource_view(#[trigger] files@[j]))
                    && looks_like_app_icon(resource_view(files@[j]))),
            match first {
                Some(i) => {
                    &&& i < k
                    &&& is_icns_file(resource_view(files@[i as int]))
                    &&& !looks_like_app_icon(resource_view(files@[i as int]))
                    &&& forall|j: int|
                        0 <= j < i ==> !is_icns_file(resource_view(#[trigger] files@[j]))
                },
                None => forall|j: int|
                    0 <= j < k ==> !is_icns_file(resource_view(#[trigger] files@[j])),
            },
        decreases n - k,
    {
        let f = &files[k];
        if is_icns_exec(f) {
            if looks_like_app_icon_exec(f) {
                return Some(k);
            }
            if first.is_none() {
                first = Some(k);
            }
        }
        k = k + 1;
    }
    first
}

/// A resource counts as the app icon exactly when its lowercased stem
/// contains `icon` (a stem with `appicon` contains `icon` too).
pub proof fn lemma_app_icon_means_icon_in_stem(f: (Seq<char>, bool, Option<Seq<char>>, Seq<char>))
    ensures
        looks_like_app_icon(f) <==> contains_seq(encode_utf8(lowercase(f.3)), icon_word()),
{
    let s = encode_utf8(lowercase(f.3));
    if contains_seq(s, appicon_word()) {
        let i = choose|i: int| occurs_at(s, appicon_word(), i);
        assert(s.subrange(i + 3, i + 7) =~= s.subrange(i, i + 7).subrange(3, 7));
        assert(appicon_word().subrange(3, 7) =~= icon_word());
        assert(occurs_at(s, icon_word(), i + 3));
    }
}

/// The icon chosen among a bundle's resources, as `choose_icns` picks it:
/// when some `.icns` file's lowercased stem contains `icon`, the first such
/// file; otherwise the first `.icns` file; `None` when there is none.
pub proof fn lemma_choose_icns_prefers_icon_stems(
    files: Seq<(Seq<char>, bool, Option<Seq<char>>, Seq<char>)>,
    r: Option<usize>,
)
    requires
        match r {
            Some(i) => {
                &&& i < files.len()
                &&& is_icns_file(files[i as int])
                &&& if looks_like_app_icon(files[i as int]) {
                    forall|j: int|
                        0 <= j < i ==> !(is_icns_file(#[trigger] files[j]) && looks_like_app_icon(
                            files[j],
                        ))
                } else {
                    &&& forall|j: int|
                        0 <= j < files.len() ==> !(is_icns_file(#[trigger] files[j])
                            && looks_like_app_icon(files[j]))
                    &&& forall|j: int| 0 <= j < i ==> !is_icns_file(#[trigger] files[j])
                }
            },
            None => forall|j: int| 0 <= j < files.len() ==> !is_icns_file(#[trigger] files[j]),
        },
    ensures
        forall|k: int|
            0 <= k < files.len() && is_icns_file(#[trigger] files[k]) && contains_seq(
                encode_utf8(lowercase(files[k].3)),
                icon_word(),
            ) ==> r is Some && r->0 <= k && contains_seq(
                encode_utf8(lowercase(files[r->0 as int].3)),
                icon_word(),
            ),
{
    assert forall|k: int|
        0 <= k < files.len() && is_icns_file(#[trigger] files[k]) && contains_seq(
            encode_utf8(lowercase(files[k].3)),
            icon_word(),
        ) implies r is Some && r->0 <= k && contains_seq(
        encode_utf8(lowercase(files[r->0 as int].3)),
        icon_word(),
    ) by {
        lemma_app_icon_means_icon_in_stem(files[k]);
        if let Some(i) = r {
            lemma_app_icon_means_icon_in_stem(files[i as int]);
        }
    }
}

/// A PNG image as a `data:` URL: `data:image/png;base64,` then the Base64
/// of its bytes.
pub fn png_data_url(png: &[u8]) -> (url: String)
    requires
        (png@.len() + 2) / 3 * 4 <= usize::MAX,
    ensures
        url@ == "data:image/png;base64,"@ + base64(png@),
{
    let mut url = String::from_str("data:image/png;base64,");
    let encoded = base64_encode(png);
    url.append(encoded.as_str());
    url
}

/// The icon file name that `plutil -extract CFBundleIconFile raw` printed:
/// its output decoded (lossily) as UTF-8 and trimmed, or `None` when
/// nothing but whitespace is left.
pub fn icon_name_from_output(stdout: &[u8]) -> (name: Option<String>)
    ensures
        match name {
            Some(n) => n@ == trimmed(std_utf8_lossy(stdout@)) && n@.len() > 0,
            None => trimmed(std_utf8_lossy(stdout@)).len() == 0,
        },
{
    let text = lossy_text(stdout);
    let name = trim_text(text.as_str());
    if name.unicode_len() == 0 {
        None
    } else {
        Some(name)
    }
}

/// The URL that opens a pane of the macOS System Settings.
pub fn system_settings_url(pane: &str) -> (url: String)
    ensures
        url@ == "x-apple.systempreferences:com.apple.preference."@ + pane@,
{
    let mut url = String::from_str("x-apple.systempreferences:com.apple.preference.");
    url.append(pane);
    url
}

} // verus!
