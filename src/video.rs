//! Stream addresses of a live or recorded session.

use vstd::prelude::*;

verus! {

/// Up to four stream addresses of one session. All four absent means no
/// stream is available yet, which is no error.
#[derive(Clone, Debug, Default)]
pub struct VideoPath {
    pub ppt_video: Option<String>,
    pub teacher_full: Option<String>,
    pub teacher_track: Option<String>,
    pub student_full: Option<String>,
}

/// The text of an optional address; an absent one reads as empty.
pub open spec fn text_or_empty(o: Option<String>) -> Seq<char> {
    match o {
        Some(s) => s@,
        None => Seq::empty(),
    }
}

fn str_or_empty(o: &Option<String>) -> (r: &str)
    ensures
        r@ == text_or_empty(*o),
{
    match o {
        Some(s) => s.as_str(),
        None => {
            proof {
                reveal_strlit("");
            }
            ""
        },
    }
}

impl VideoPath {
    /// All four addresses absent.
    pub open spec fn is_empty_spec(&self) -> bool {
        self.ppt_video is None && self.teacher_full is None && self.teacher_track is None
            && self.student_full is None
    }

    /// No address at all: the stream is unavailable.
    pub fn is_default(&self) -> (r: bool)
        ensures
            r == self.is_empty_spec(),
    {
        self.teacher_full.is_none() && self.teacher_track.is_none() && self.student_full.is_none()
            && self.ppt_video.is_none()
    }

    pub fn ppt_video(&self) -> (r: &str)
        ensures
            r@ == text_or_empty(self.ppt_video),
    {
        str_or_empty(&self.ppt_video)
    }

    pub fn teacher_full(&self) -> (r: &str)
        ensures
            r@ == text_or_empty(self.teacher_full),
    {
        str_or_empty(&self.teacher_full)
    }

    pub fn teacher_track(&self) -> (r: &str)
        ensures
            r@ == text_or_empty(self.teacher_track),
    {
        str_or_empty(&self.teacher_track)
    }

    pub fn student_full(&self) -> (r: &str)
        ensures
            r@ == text_or_empty(self.student_full),
    {
        str_or_empty(&self.student_full)
    }

    /// The unavailable stream: no address.
    pub fn unavailable() -> (r: VideoPath)
        ensures
            r.is_empty_spec(),
    {
        VideoPath { ppt_video: None, teacher_full: None, teacher_track: None, student_full: None }
    }

    /// A field-by-field copy.
    pub fn copied(&self) -> (r: VideoPath)
        ensures
            r == *self,
    {
        VideoPath {
            ppt_video: self.ppt_video.clone(),
            teacher_full: self.teacher_full.clone(),
            teacher_track: self.teacher_track.clone(),
            student_full: self.student_full.clone(),
        }
    }
}

/// Emptiness: a stream with none of its four addresses reports itself
/// unavailable, and one with any address does not.
pub proof fn lemma_unavailable_iff_empty(v: VideoPath)
    ensures
        v.is_empty_spec() <==> (v.ppt_video is None && v.teacher_full is None && v.teacher_track
            is None && v.student_full is None),
{
}

/// The marker before a player address's stream description.
pub open spec fn info_marker() -> Seq<char> {
    seq!['?', 'i', 'n', 'f', 'o', '=']
}

/// The marker starts at position `i` of `s`.
pub open spec fn marker_at(s: Seq<char>, i: int) -> bool {
    0 <= i && i + 6 <= s.len() && s.subrange(i, i + 6) == info_marker()
}

/// The first position at or after `from` where the marker starts, else
/// `s.len()`.
pub open spec fn find_marker(s: Seq<char>, from: int) -> int
    decreases s.len() - from,
{
    if from < 0 || from + 6 > s.len() {
        s.len() as int
    } else if marker_at(s, from) {
        from
    } else {
        find_marker(s, from + 1)
    }
}

/// The piece of `url` after the first marker, up to the next marker or the
/// end; `None` without a marker.
pub open spec fn info_segment(url: Seq<char>) -> Option<Seq<char>> {
    let p = find_marker(url, 0);
    if p >= url.len() {
        None
    } else {
        Some(url.subrange(p + 6, find_marker(url, p + 6)))
    }
}

proof fn lemma_find_marker_bounds(s: Seq<char>, from: int)
    requires
        0 <= from,
    ensures
        find_marker(s, from) == s.len() || (from <= find_marker(s, from) && find_marker(s, from)
            + 6 <= s.len()),
    decreases s.len() - from,
{
    if from + 6 <= s.len() && !marker_at(s, from) {
        lemma_find_marker_bounds(s, from + 1);
    }
}

fn marker_at_exec(s: &str, n: usize, i: usize) -> (r: bool)
    requires
        n == s@.len(),
        i + 6 <= n,
    ensures
        r == marker_at(s@, i as int),
{
    let ghost m = s@.subrange(i as int, i + 6);
    let b = s.get_char(i) == '?' && s.get_char(i + 1) == 'i' && s.get_char(i + 2) == 'n'
        && s.get_char(i + 3) == 'f' && s.get_char(i + 4) == 'o' && s.get_char(i + 5) == '=';
    proof {
        if b {
            assert(m =~= info_marker());
        } else if m == info_marker() {
            assert(m[0] == s@[i as int] && m[1] == s@[i + 1] && m[2] == s@[i + 2]);
            assert(m[3] == s@[i + 3] && m[4] == s@[i + 4] && m[5] == s@[i + 5]);
        }
    }
    b
}

fn find_marker_exec(s: &str, n: usize, from: usize) -> (r: usize)
    requires
        n == s@.len(),
        from <= n,
    ensures
        r == find_marker(s@, from as int),
{
    let mut i: usize = from;
    while i < n && n - i >= 6
        invariant
            from <= i <= n,
            n == s@.len(),
            find_marker(s@, from as int) == find_marker(s@, i as int),
        decreases n - i,
    {
        if marker_at_exec(s, n, i) {
            return i;
        }
        i = i + 1;
    }
    n
}

/// The stream description that a player address carries, still
/// percent-encoded.
pub fn info_segment_of(url: &str) -> (r: Option<String>)
    ensures
        r is None <==> info_segment(url@) is None,
        r matches Some(t) ==> info_segment(url@) == Some(t@),
{
    let n: usize = url.unicode_len();
    let p: usize = find_marker_exec(url, n, 0);
    proof {
        lemma_find_marker_bounds(url@, 0);
    }
    if p >= n {
        return None;
    }
    proof {
        lemma_find_marker_bounds(url@, p + 6);
    }
    let q: usize = find_marker_exec(url, n, p + 6);
    Some(url.substring_char(p + 6, q).to_string())
}

/// What percent-decoding `s` and reading the bytes as UTF-8 gives, or the
/// empty text when they are not UTF-8.
pub uninterp spec fn percent_decoded(s: Seq<char>) -> Seq<char>;

/// Relies on `percent_encoding::percent_decode_str` and `decode_utf8`: the
/// decoded text depends on `s` alone; input that does not decode to UTF-8
/// gives the empty text, as does empty input.
#[verifier::external_body]
fn percent_decode(s: &str) -> (r: String)
    ensures
        r@ == percent_decoded(s@),
        s@.len() == 0 ==> r@.len() == 0,
{
    percent_encoding::percent_decode_str(s).decode_utf8().unwrap_or_default().to_string()
}

/// The decoded stream description of a player address: the JSON text that
/// names the four stream addresses. `None` when the address carries none,
/// which means the stream is unavailable.
pub fn info_payload(url: &str) -> (r: Option<String>)
    ensures
        r is None <==> info_segment(url@) is None,
        r matches Some(t) ==> t@ == percent_decoded(info_segment(url@)->0),
{
    match info_segment_of(url) {
        Some(seg) => Some(percent_decode(seg.as_str())),
        None => None,
    }
}

} // verus!
