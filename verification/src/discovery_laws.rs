//! What holds of the files that are found, and of the names that are made of others.

use crate::assembly_laws;
use crate::assembly_laws::picks;
use crate::discovery;
use crate::discovery::Order;
use crate::ffmpeg::OutputFormat;
use crate::images;
use crate::number;
use crate::order;
use crate::path;
use crate::path_laws;
use vstd::prelude::*;

verus! {

// ─── Kinds of files ────────────────────────────────────────────

/// Making capitals small changes these twenty-six letters and nothing else: each becomes the
/// letter that is thirty-two places behind it. What is small already stays.
pub proof fn law_capitals_are_made_small(s: Seq<char>, i: int)
    requires
        0 <= i < s.len(),
    ensures
        number::ascii_lower(s).len() == s.len(),
        65 <= s[i] as int <= 90 ==> number::ascii_lower(s)[i] as int == s[i] as int + 32,
        !(65 <= s[i] as int <= 90) ==> number::ascii_lower(s)[i] == s[i],
        number::ascii_lower(number::ascii_lower(s)) == number::ascii_lower(s),
{
    assert(number::ascii_lower(number::ascii_lower(s)) =~= number::ascii_lower(s));
}

/// What a file is goes by its extension alone, in capitals or not: two files with extensions that
/// are alike in small letters are both audio or both not, and both images or both not. A file
/// without an extension is neither.
pub proof fn law_kind_goes_by_the_extension(p: Seq<char>, q: Seq<char>)
    ensures
        path::extension(p) is Some && path::extension(q) is Some && number::ascii_lower(
            path::extension(p)->Some_0,
        ) == number::ascii_lower(path::extension(q)->Some_0) ==> discovery::names_audio(p)
            == discovery::names_audio(q) && images::names_image(p) == images::names_image(q),
        path::extension(p) is None ==> !discovery::names_audio(p) && !images::names_image(p),
{
}

/// Whether this is a kind of audio that is read or written.
proof fn lemma_audio_extensions(f: OutputFormat)
    ensures
        discovery::is_audio_extension(number::ascii_lower(f.spec_extension())),
        discovery::is_audio_extension(number::ascii_lower("wav"@)),
        path_laws::has_no(f.spec_extension(), '.') && path_laws::has_no(f.spec_extension(), '/'),
        f.spec_extension().len() > 0,
        path_laws::has_no("wav"@, '.') && path_laws::has_no("wav"@, '/') && "wav"@.len() > 0,
{
    reveal_strlit("ogg");
    reveal_strlit("mp3");
    reveal_strlit("opus");
    reveal_strlit("flac");
    reveal_strlit("wav");
    assert(number::ascii_lower("ogg"@) =~= "ogg"@);
    assert(number::ascii_lower("mp3"@) =~= "mp3"@);
    assert(number::ascii_lower("opus"@) =~= "opus"@);
    assert(number::ascii_lower("flac"@) =~= "flac"@);
    assert(number::ascii_lower("wav"@) =~= "wav"@);
}

/// Everything that is written as audio is found as audio again: outputs in every format, and
/// normalized files.
pub proof fn law_what_is_written_is_audio(p: Seq<char>, f: OutputFormat)
    requires
        path::file_name(p) is Some,
    ensures
        discovery::names_audio(path::with_extension(p, f.spec_extension())),
        discovery::names_audio(path::with_extension(p, "wav"@)),
{
    lemma_audio_extensions(f);
    path_laws::law_new_extension(p, f.spec_extension());
    path_laws::law_new_extension(p, "wav"@);
}

/// No file is both audio and an image.
pub proof fn law_audio_is_no_image(p: Seq<char>)
    ensures
        !(discovery::names_audio(p) && images::names_image(p)),
{
    if path::extension(p) is Some {
        let e = number::ascii_lower(path::extension(p)->Some_0);
        lemma_last_letters(e);
    }
}

proof fn lemma_last_letters(e: Seq<char>)
    ensures
        !(discovery::is_audio_extension(e) && images::is_image_extension(e)),
{
    reveal_strlit("mp3");
    reveal_strlit("wav");
    reveal_strlit("ogg");
    reveal_strlit("flac");
    reveal_strlit("aac");
    reveal_strlit("m4a");
    reveal_strlit("m4b");
    reveal_strlit("wma");
    reveal_strlit("opus");
    reveal_strlit("webm");
    reveal_strlit("jpg");
    reveal_strlit("jpeg");
    reveal_strlit("png");
    reveal_strlit("bmp");
    reveal_strlit("gif");
    reveal_strlit("webp");
    reveal_strlit("tiff");
    reveal_strlit("tif");
    reveal_strlit("svg");
    if images::is_image_extension(e) {
        assert(e.len() == 3 || e.len() == 4);
        assert(e[0] == 'j' || e[0] == 'p' || e[0] == 'b' || e[0] == 'g' || e[0] == 'w' || e[0]
            == 't' || e[0] == 's');
        assert(e[0] == 'w' ==> e.len() == 4 && e[3] == 'p');
    }
    if discovery::is_audio_extension(e) {
        assert(e[0] == 'm' || e[0] == 'w' || e[0] == 'o' || e[0] == 'f' || e[0] == 'a');
        assert(e[0] == 'w' && e.len() == 4 ==> e[3] == 'm');
    }
}

/// Which files are audio.
pub open spec fn are_audio(found: Seq<Seq<char>>) -> Seq<bool> {
    Seq::new(found.len(), |i: int| discovery::names_audio(found[i]))
}

/// All audio files that were found are taken, in order, and nothing else.
pub proof fn law_all_audio_is_taken(found: Seq<Seq<char>>)
    ensures
        picks(found, are_audio(found), discovery::audio_among(found)),
{
    lemma_audio(found, are_audio(found));
}

proof fn lemma_audio(found: Seq<Seq<char>>, keep: Seq<bool>)
    requires
        keep.len() >= found.len(),
        forall|i: int|
            0 <= i < found.len() ==> #[trigger] keep[i] == discovery::names_audio(found[i]),
    ensures
        picks(found, keep, discovery::audio_among(found)),
    decreases found.len(),
{
    reveal(Seq::filter);
    if found.len() > 0 {
        lemma_audio(found.drop_last(), keep);
        assembly_laws::lemma_picks_more(
            found,
            keep,
            discovery::audio_among(found.drop_last()),
            discovery::audio_among(found),
        );
    }
}

// ─── Names ─────────────────────────────────────────────────────

/// A sanitized name is as long as it was and keeps every character that is safe; it holds no
/// separator, so it is a name and no path.
pub proof fn law_sanitizing_keeps_what_is_safe(s: Seq<char>, i: int)
    requires
        0 <= i < s.len(),
    ensures
        discovery::sanitized(s).len() == s.len(),
        path_laws::has_no(discovery::sanitized(s), '/'),
        path_laws::has_no(discovery::sanitized(s), '\\'),
        discovery::sanitized(s)[i] == s[i] || discovery::sanitized(s)[i] == '_',
        'a' <= s[i] <= 'z' || 'A' <= s[i] <= 'Z' || '0' <= s[i] <= '9' || s[i] == '.' || s[i] == ' '
            || s[i] == '-' || s[i] as int >= 128 ==> discovery::sanitized(s)[i] == s[i],
        s[i] == ':' || s[i] == '*' || s[i] == '?' || s[i] == '"' || s[i] == '<' || s[i] == '>'
            || s[i] == '|' ==> discovery::sanitized(s)[i] == '_',
{
}

// ─── Order ─────────────────────────────────────────────────────

/// One list of numbers comes before another exactly if, at the first place where they differ, it
/// has the smaller number, or ends before the other does.
pub proof fn law_first_difference_decides(a: Seq<int>, b: Seq<int>, k: int)
    requires
        0 <= k <= a.len(),
        k <= b.len(),
        a.take(k) == b.take(k),
    ensures
        k < a.len() && k < b.len() && a[k] < b[k] ==> discovery::key_order(a, b) == Order::Less,
        k < a.len() && k < b.len() && a[k] > b[k] ==> discovery::key_order(a, b) == Order::Greater,
        k == a.len() < b.len() ==> discovery::key_order(a, b) == Order::Less,
        k == b.len() < a.len() ==> discovery::key_order(a, b) == Order::Greater,
        k == a.len() == b.len() ==> discovery::key_order(a, b) == Order::Equal,
    decreases k,
{
    if k > 0 {
        assert(a.take(k)[0] == a[0]);
        assert(b.take(k)[0] == b[0]);
        let c = a.skip(1);
        let d = b.skip(1);
        assert(c.take(k - 1) =~= d.take(k - 1)) by {
            assert forall|i: int| 0 <= i < k - 1 implies #[trigger] c[i] == d[i] by {
                assert(c[i] == a.take(k)[i + 1]);
                assert(d[i] == b.take(k)[i + 1]);
            }
        }
        law_first_difference_decides(c, d, k - 1);
        if k < a.len() && k < b.len() {
            assert(c[k - 1] == a[k] && d[k - 1] == b[k]);
        }
    }
}

/// What is sorted holds the same texts, none lost and none twice, and no text stands before one
/// that should come before it.
pub proof fn law_sorted_is_in_order(t: Seq<Seq<char>>, sorted: Seq<Seq<char>>, i: int, j: int)
    requires
        t.len() <= usize::MAX,
        discovery::is_sorted_from(t, sorted),
        0 <= i < j < sorted.len(),
    ensures
        sorted.len() == t.len(),
        discovery::key_order(
            discovery::natural_key(sorted[i]),
            discovery::natural_key(sorted[j]),
        ) != Order::Greater,
        forall|k: int| 0 <= k < t.len() ==> sorted.contains(#[trigger] t[k]),
{
    let p = choose|p: Seq<usize>| #[trigger]
        order::is_order(p, t.len()) && discovery::in_order(t, p) && sorted == discovery::arranged(
            t,
            p,
        );
    order::lemma_order(p, t.len());
    order::law_every_place_once(p, t.len());
    assert(discovery::comes_before(t, p[i], p[j]));
    assert forall|k: int| 0 <= k < t.len() implies sorted.contains(#[trigger] t[k]) by {
        assert(p.contains(k as usize));
        let a = p.index_of(k as usize);
        assert(sorted[a] == t[k]);
    }
}

} // verus!
