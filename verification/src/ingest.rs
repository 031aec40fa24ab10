//! Documents as searchable chunks: text split into paragraphs packed into
//! chunks of about 1500 bytes, and which reader an ingest input goes to.

use crate::coverage::push_str;
use crate::extract::last_dot;
use crate::text::str_eq;
use crate::text::{
    ascii_lower, chars_of, lemma_utf8_len_concat, string_of, to_ascii_lower, trim_chars, trim_end, trim_start, trimmed,
    utf8_len, utf8_len_capped, utf8_width,
};
use vstd::prelude::*;

verus! {

/// A chunk of a document: its content type (`text`, `pdf`, `web`, `image`),
/// where it came from and its text.
#[derive(Debug, Clone)]
pub struct DocChunk {
    pub content_type: String,
    pub source: String,
    pub text: String,
}

pub struct ChunkV {
    pub content_type: Seq<char>,
    pub source: Seq<char>,
    pub text: Seq<char>,
}

impl View for DocChunk {
    type V = ChunkV;

    open spec fn view(&self) -> ChunkV {
        ChunkV { content_type: self.content_type@, source: self.source@, text: self.text@ }
    }
}

pub open spec fn chunk_views(v: Seq<DocChunk>) -> Seq<ChunkV> {
    v.map_values(|c: DocChunk| c@)
}

/// `r` with `c` prepended to its first piece.
pub open spec fn prefix_first(c: Seq<char>, r: Seq<Seq<char>>) -> Seq<Seq<char>> {
    r.update(0, c + r[0])
}

/// The pieces of `s` between blank-line separators `\n\n` (`str::split`),
/// matched left to right without overlap.
pub open spec fn paragraphs_raw(s: Seq<char>) -> Seq<Seq<char>>
    decreases s.len(),
{
    if s.len() == 0 {
        seq![seq![]]
    } else if s.len() >= 2 && s[0] == '\n' && s[1] == '\n' {
        seq![seq![]] + paragraphs_raw(s.skip(2))
    } else {
        prefix_first(seq![s[0]], paragraphs_raw(s.skip(1)))
    }
}

proof fn lemma_paragraphs_nonempty(s: Seq<char>)
    ensures
        paragraphs_raw(s).len() > 0,
    decreases s.len(),
{
    if s.len() > 0 {
        if s.len() >= 2 && s[0] == '\n' && s[1] == '\n' {
            lemma_paragraphs_nonempty(s.skip(2));
        } else {
            lemma_paragraphs_nonempty(s.skip(1));
        }
    }
}

/// The pieces of a text between `\n\n` separators.
fn split_paragraphs(cs: &Vec<char>) -> (r: Vec<Vec<char>>)
    ensures
        r@.map_values(|v: Vec<char>| v@) == paragraphs_raw(cs@),
{
    let n = cs.len();
    let mut done: Vec<Vec<char>> = Vec::new();
    let mut cur: Vec<char> = Vec::new();
    let mut i: usize = 0;
    proof {
        assert(cs@.skip(0) =~= cs@);
        lemma_paragraphs_nonempty(cs@);
        assert(prefix_first(seq![], paragraphs_raw(cs@)) =~= paragraphs_raw(cs@));
    }
    while i < n
        invariant
            n == cs@.len(),
            i <= n,
            done@.map_values(|v: Vec<char>| v@) + prefix_first(cur@, paragraphs_raw(cs@.skip(i as int)))
                == paragraphs_raw(cs@),
        decreases n - i,
    {
        let ghost rest = cs@.skip(i as int);
        let ghost dv = done@.map_values(|v: Vec<char>| v@);
        let ghost cv = cur@;
        if i + 1 < n && cs[i] == '\n' && cs[i + 1] == '\n' {
            proof {
                assert(rest[0] == '\n' && rest[1] == '\n');
                assert(rest.skip(2) =~= cs@.skip(i + 2));
                lemma_paragraphs_nonempty(cs@.skip(i + 2));
                let tail = paragraphs_raw(cs@.skip(i + 2));
                assert(prefix_first(cv, seq![seq![]] + tail) =~= seq![cv] + tail);
                assert(prefix_first(seq![], tail) =~= tail);
            }
            done.push(cur);
            cur = Vec::new();
            i = i + 2;
            proof {
                assert(done@.map_values(|v: Vec<char>| v@) =~= dv.push(cv));
                let tail = paragraphs_raw(cs@.skip(i as int));
                assert(dv.push(cv) + tail =~= dv + (seq![cv] + tail));
            }
        } else {
            proof {
                assert(rest[0] == cs@[i as int]);
                assert(!(rest.len() >= 2 && rest[0] == '\n' && rest[1] == '\n'));
                assert(rest.skip(1) =~= cs@.skip(i + 1));
                lemma_paragraphs_nonempty(cs@.skip(i + 1));
                let tail = paragraphs_raw(cs@.skip(i + 1));
                assert(cv + (seq![cs@[i as int]] + tail[0]) =~= cv.push(cs@[i as int]) + tail[0]);
                assert(prefix_first(seq![cs@[i as int]], tail)[0] == seq![cs@[i as int]] + tail[0]);
                assert(prefix_first(cv, prefix_first(seq![cs@[i as int]], tail)) =~= prefix_first(
                    cv.push(cs@[i as int]),
                    tail,
                ));
            }
            cur.push(cs[i]);
            i = i + 1;
        }
    }
    proof {
        assert(cs@.skip(n as int) =~= Seq::<char>::empty());
        assert(prefix_first(cur@, seq![seq![]]) =~= seq![cur@]);
    }
    let ghost dv = done@.map_values(|v: Vec<char>| v@);
    done.push(cur);
    proof {
        assert(done@.map_values(|v: Vec<char>| v@) =~= dv + seq![cur@]);
    }
    done
}

/// Paragraphs packed greedily: a paragraph that would push a non-empty
/// chunk past 1500 bytes starts a new one; each paragraph is followed by a
/// blank line. Returns the finished chunks and the chunk being filled.
pub open spec fn pack(paras: Seq<Seq<char>>) -> (Seq<Seq<char>>, Seq<char>)
    decreases paras.len(),
{
    if paras.len() == 0 {
        (seq![], seq![])
    } else {
        let (done, buf) = pack(paras.drop_last());
        let p = trimmed(paras.last());
        if p.len() == 0 {
            (done, buf)
        } else if utf8_len(buf) + utf8_len(p) > 1500 && buf.len() > 0 {
            (done.push(buf), p + "\n\n"@)
        } else {
            (done, buf + p + "\n\n"@)
        }
    }
}

/// The chunk texts of a document: the packed chunks, and the last one
/// trimmed when it holds anything.
pub open spec fn chunk_texts(text: Seq<char>) -> Seq<Seq<char>> {
    let (done, buf) = pack(paragraphs_raw(text));
    if trimmed(buf).len() > 0 {
        done.push(trimmed(buf))
    } else {
        done
    }
}

/// The chunks of a document.
pub open spec fn chunks_of(text: Seq<char>, ctype: Seq<char>, source: Seq<char>) -> Seq<ChunkV> {
    chunk_texts(text).map_values(|t: Seq<char>| ChunkV { content_type: ctype, source: source, text: t })
}

/// `x` capped at 2000.
pub open spec fn cap2k(x: nat) -> nat {
    if x < 2000 {
        x
    } else {
        2000
    }
}

/// Split a document into chunks of about 1500 bytes at paragraph breaks.
pub fn chunk(text: &str, ctype: &str, source: &str) -> (r: Vec<DocChunk>)
    ensures
        chunk_views(r@) == chunks_of(text@, ctype@, source@),
{
    let cs = chars_of(text);
    let paras = split_paragraphs(&cs);
    let ghost pv = paras@.map_values(|v: Vec<char>| v@);
    let mut done: Vec<Vec<char>> = Vec::new();
    let mut buf: Vec<char> = Vec::new();
    let mut bb: u64 = 0;
    let m = paras.len();
    for k in 0..m
        invariant
            m == paras@.len(),
            pv == paras@.map_values(|v: Vec<char>| v@),
            pv == paragraphs_raw(cs@),
            cs@ == text@,
            (done@.map_values(|v: Vec<char>| v@), buf@) == pack(pv.take(k as int)),
            bb == cap2k(utf8_len(buf@)),
    {
        proof {
            assert(pv.take(k + 1).drop_last() =~= pv.take(k as int));
            assert(pv.take(k + 1).last() == paras@[k as int]@);
            assert(pv[k as int] == paras@[k as int]@);
        }
        let p = trim_chars(&paras[k]);
        if p.len() > 0 {
            let pb = utf8_len_capped(&p, 2000);
            let ghost dv = done@.map_values(|v: Vec<char>| v@);
            let ghost bv = buf@;
            if bb + pb > 1500 && buf.len() > 0 {
                done.push(buf);
                buf = Vec::new();
                bb = 0;
                proof {
                    assert(done@.map_values(|v: Vec<char>| v@) =~= dv.push(bv));
                }
            }
            let ghost b2 = buf@;
            let pn = p.len();
            for q in 0..pn
                invariant
                    pn == p@.len(),
                    buf@ == b2 + p@.take(q as int),
            {
                buf.push(p[q]);
                proof {
                    assert(buf@ =~= b2 + p@.take(q + 1));
                }
            }
            buf.push('\n');
            buf.push('\n');
            proof {
                reveal_strlit("\n\n");
                assert(p@.take(pn as int) =~= p@);
                assert(buf@ =~= b2 + p@ + "\n\n"@);
                lemma_utf8_len_concat(b2 + p@, "\n\n"@);
                lemma_utf8_len_concat(b2, p@);
                let nn = "\n\n"@;
                assert(nn.len() == 2);
                assert(nn.drop_last().drop_last() =~= Seq::<char>::empty());
                assert(nn.drop_last().last() == '\n');
                assert(nn.last() == '\n');
                assert(utf8_len(nn.drop_last().drop_last()) == 0);
                assert(nn.drop_last().len() == 1);
                assert(nn.drop_last()[0] == '\n');
                assert(('\n' as u32) < 0x80);
                assert(utf8_width(nn.drop_last().last()) == 1);
                assert(utf8_len(nn.drop_last()) == 1);
                assert(utf8_len(nn) == 2);
            }
            bb = if bb + pb + 2 < 2000 {
                bb + pb + 2
            } else {
                2000
            };
        }
    }
    proof {
        assert(pv.take(m as int) =~= pv);
    }
    let last = trim_chars(&buf);
    if last.len() > 0 {
        done.push(last);
    }
    let ghost tv = done@.map_values(|v: Vec<char>| v@);
    let mut out: Vec<DocChunk> = Vec::new();
    let nd = done.len();
    for j in 0..nd
        invariant
            nd == done@.len(),
            tv == done@.map_values(|v: Vec<char>| v@),
            chunk_views(out@) == tv.take(j as int).map_values(
                |t: Seq<char>| ChunkV { content_type: ctype@, source: source@, text: t },
            ),
    {
        let ghost before = chunk_views(out@);
        out.push(DocChunk { content_type: ctype.to_owned(), source: source.to_owned(), text: string_of(&done[j]) });
        proof {
            assert(chunk_views(out@) =~= before.push(ChunkV { content_type: ctype@, source: source@, text: tv[j as int] }));
            assert(tv.take(j + 1) =~= tv.take(j as int).push(tv[j as int]));
        }
    }
    proof {
        assert(tv.take(nd as int) =~= tv);
    }
    out
}

/// The extension of a file name (`Path::extension`): what follows its last
/// `.`; none without a `.`, or when the only `.` starts the name.
pub open spec fn extension_of(name: Seq<char>) -> Option<Seq<char>> {
    match last_dot(name) {
        Some(p) => if p == 0 {
            None
        } else {
            Some(name.skip(p + 1))
        },
        None => None,
    }
}

/// The extension of a file name (see `extension_of`).
pub fn extension(name: &str) -> (r: Option<String>)
    ensures
        match r {
            Some(e) => extension_of(name@) == Some(e@),
            None => extension_of(name@) is None,
        },
{
    let cs = chars_of(name);
    let mut k = cs.len();
    proof {
        assert(cs@.take(k as int) =~= cs@);
    }
    while k > 0 && cs[k - 1] != '.'
        invariant
            k <= cs@.len(),
            cs@ == name@,
            last_dot(cs@) == last_dot(cs@.take(k as int)),
        decreases k,
    {
        proof {
            assert(cs@.take(k as int).drop_last() =~= cs@.take(k - 1));
        }
        k = k - 1;
    }
    if k <= 1 {
        proof {
            if k == 1 {
                assert(cs@.take(1).last() == '.');
            }
        }
        return None;
    }
    proof {
        assert(cs@.take(k as int).last() == '.');
    }
    let mut e: Vec<char> = Vec::new();
    let n = cs.len();
    for j in k..n
        invariant
            k <= n,
            n == cs@.len(),
            e@ == cs@.subrange(k as int, j as int),
    {
        e.push(cs[j]);
        proof {
            assert(e@ =~= cs@.subrange(k as int, j + 1));
        }
    }
    proof {
        assert(e@ =~= name@.skip(k as int));
    }
    Some(string_of(&e))
}

/// The last component of a path (`Path::file_name`): its last non-empty
/// `/`-separated part other than `.`; none when that is `..`.
pub open spec fn file_name_of(path: Seq<char>) -> Option<Seq<char>> {
    let parts = real_parts(crate::parse::path_parts(path));
    if parts.len() == 0 || parts.last() == ".."@ {
        None
    } else {
        Some(parts.last())
    }
}

/// The parts other than `.`.
pub open spec fn real_parts(ps: Seq<Seq<char>>) -> Seq<Seq<char>>
    decreases ps.len(),
{
    if ps.len() == 0 {
        seq![]
    } else if ps.last() == "."@ {
        real_parts(ps.drop_last())
    } else {
        real_parts(ps.drop_last()).push(ps.last())
    }
}

/// Where an ingest input is read from.
#[derive(Debug, Clone, Copy, PartialEq, Eq, Structural)]
pub enum IngestSource {
    Web,
    Pdf,
    Text,
}

/// The ASCII-lowercased extension of an ingest input's file name.
pub open spec fn input_ext(arg: Seq<char>) -> Option<Seq<char>> {
    match file_name_of(arg) {
        Some(n) => match extension_of(n) {
            Some(e) => Some(e.map_values(|c: char| ascii_lower(c))),
            None => None,
        },
        None => None,
    }
}

pub open spec fn image_exts() -> Seq<Seq<char>> {
    seq!["png"@, "jpg"@, "jpeg"@, "webp"@, "bmp"@, "tiff"@, "tif"@, "gif"@]
}

pub open spec fn media_exts() -> Seq<Seq<char>> {
    seq!["mp3"@, "wav"@, "m4a"@, "mp4"@, "mov"@]
}

/// The message for an image input without OCR support.
pub open spec fn image_message(p: Seq<char>) -> Seq<char> {
    "image OCR requires a build with `--features media` (tesseract): "@ + p
}

/// How an ingest input is read: a URL from the web; by extension, a PDF, or
/// text for `txt`/`md`/`markdown`/`rst`; images, audio and video need media
/// support this build lacks; anything else is unsupported.
pub open spec fn ingest_plan_of(arg: Seq<char>) -> Result<IngestSource, Seq<char>> {
    if (arg.len() >= 7 && arg.take(7) == "http://"@) || (arg.len() >= 8 && arg.take(8) == "https://"@) {
        Ok(IngestSource::Web)
    } else {
        match input_ext(arg) {
            Some(e) => if e == "pdf"@ {
                Ok(IngestSource::Pdf)
            } else if e == "txt"@ || e == "md"@ || e == "markdown"@ || e == "rst"@ {
                Ok(IngestSource::Text)
            } else if image_exts().contains(e) {
                Err(image_message(arg))
            } else if media_exts().contains(e) {
                Err(
                    "audio/video ingest ("@ + arg
                        + ") requires a build with `--features media` (ffmpeg/whisper) - roadmap"@,
                )
            } else {
                Err("unsupported ingest input: "@ + arg + " (pdf, txt/md, or http(s) url)"@)
            },
            None => Err("unsupported ingest input: "@ + arg + " (pdf, txt/md, or http(s) url)"@),
        }
    }
}

/// An image input in a build without OCR: the error telling so.
pub fn ingest_image_arm(p: &str) -> (r: Result<Vec<DocChunk>, String>)
    ensures
        match r {
            Ok(_) => false,
            Err(m) => m@ == image_message(p@),
        },
{
    let mut m: Vec<char> = Vec::new();
    push_str(&mut m, "image OCR requires a build with `--features media` (tesseract): ");
    push_str(&mut m, p);
    Err(string_of(&m))
}

/// Whether `v` starts with the characters of `p`.
fn has_prefix(v: &Vec<char>, p: &str) -> (r: bool)
    ensures
        r == (v@.len() >= p@.len() && v@.take(p@.len() as int) == p@),
{
    let pc = chars_of(p);
    if v.len() < pc.len() {
        return false;
    }
    let n = pc.len();
    for i in 0..n
        invariant
            n == pc@.len(),
            pc@ == p@,
            n <= v@.len(),
            forall|k: int| 0 <= k < i ==> v@[k] == pc@[k],
    {
        if v[i] != pc[i] {
            return false;
        }
    }
    proof {
        assert(v@.take(n as int) =~= pc@);
    }
    true
}

/// The ASCII-lowercased extension of an ingest input (see `input_ext`).
fn input_extension(arg: &str) -> (r: Option<String>)
    ensures
        match r {
            Some(e) => input_ext(arg@) == Some(e@),
            None => input_ext(arg@) is None,
        },
{
    let parts = crate::parse::path_parts_of(arg);
    let ghost pv = parts@.map_values(|s: String| s@);
    let mut kept_parts: Vec<String> = Vec::new();
    let n = parts.len();
    for i in 0..n
        invariant
            n == parts@.len(),
            pv == parts@.map_values(|s: String| s@),
            kept_parts@.map_values(|s: String| s@) == real_parts(pv.take(i as int)),
    {
        proof {
            assert(pv.take(i + 1).drop_last() =~= pv.take(i as int));
            assert(pv.take(i + 1).last() == parts@[i as int]@);
        }
        if !str_eq(parts[i].as_str(), ".") {
            let ghost before = kept_parts@.map_values(|s: String| s@);
            kept_parts.push(parts[i].clone());
            proof {
                assert(kept_parts@.map_values(|s: String| s@) =~= before.push(parts@[i as int]@));
            }
        }
    }
    proof {
        assert(pv.take(n as int) =~= pv);
    }
    if kept_parts.len() == 0 {
        return None;
    }
    let last = &kept_parts[kept_parts.len() - 1];
    proof {
        assert(kept_parts@.map_values(|s: String| s@).last() == last@);
    }
    if str_eq(last.as_str(), "..") {
        return None;
    }
    match extension(last.as_str()) {
        Some(e) => {
            let cs = chars_of(e.as_str());
            let mut low: Vec<char> = Vec::new();
            let m = cs.len();
            for j in 0..m
                invariant
                    m == cs@.len(),
                    low@ == cs@.take(j as int).map_values(|c: char| ascii_lower(c)),
            {
                low.push(to_ascii_lower(cs[j]));
                proof {
                    assert(low@ =~= cs@.take(j + 1).map_values(|c: char| ascii_lower(c)));
                }
            }
            proof {
                assert(cs@.take(m as int) =~= cs@);
            }
            Some(string_of(&low))
        },
        None => None,
    }
}

/// How an ingest input is read (see `ingest_plan_of`).
pub fn ingest_plan(arg: &str) -> (r: Result<IngestSource, String>)
    ensures
        match r {
            Ok(s) => ingest_plan_of(arg@) == Ok::<IngestSource, Seq<char>>(s),
            Err(m) => ingest_plan_of(arg@) == Err::<IngestSource, Seq<char>>(m@),
        },
{
    let cs = chars_of(arg);
    proof {
        reveal_strlit("http://");
        reveal_strlit("https://");
    }
    if has_prefix(&cs, "http://") || has_prefix(&cs, "https://") {
        return Ok(IngestSource::Web);
    }
    let mut unsupported: Vec<char> = Vec::new();
    push_str(&mut unsupported, "unsupported ingest input: ");
    push_str(&mut unsupported, arg);
    push_str(&mut unsupported, " (pdf, txt/md, or http(s) url)");
    let e = match input_extension(arg) {
        Some(e) => e,
        None => return Err(string_of(&unsupported)),
    };
    let es = e.as_str();
    if str_eq(es, "pdf") {
        Ok(IngestSource::Pdf)
    } else if str_eq(es, "txt") || str_eq(es, "md") || str_eq(es, "markdown") || str_eq(es, "rst") {
        Ok(IngestSource::Text)
    } else if str_eq(es, "png") || str_eq(es, "jpg") || str_eq(es, "jpeg") || str_eq(es, "webp") || str_eq(
        es,
        "bmp",
    ) || str_eq(es, "tiff") || str_eq(es, "tif") || str_eq(es, "gif") {
        proof {
            assert(image_exts().contains(e@)) by {
                if e@ == "png"@ { assert(image_exts()[0] == e@); }
                else if e@ == "jpg"@ { assert(image_exts()[1] == e@); }
                else if e@ == "jpeg"@ { assert(image_exts()[2] == e@); }
                else if e@ == "webp"@ { assert(image_exts()[3] == e@); }
                else if e@ == "bmp"@ { assert(image_exts()[4] == e@); }
                else if e@ == "tiff"@ { assert(image_exts()[5] == e@); }
                else if e@ == "tif"@ { assert(image_exts()[6] == e@); }
                else { assert(image_exts()[7] == e@); }
            }
        }
        match ingest_image_arm(arg) {
            Ok(_) => Err(string_of(&unsupported)),
            Err(m) => Err(m),
        }
    } else if str_eq(es, "mp3") || str_eq(es, "wav") || str_eq(es, "m4a") || str_eq(es, "mp4") || str_eq(
        es,
        "mov",
    ) {
        proof {
            assert(!image_exts().contains(e@)) by {
                if image_exts().contains(e@) {
                    let k = choose|k: int| 0 <= k < image_exts().len() && image_exts()[k] == e@;
                }
            }
            assert(media_exts().contains(e@)) by {
                if e@ == "mp3"@ { assert(media_exts()[0] == e@); }
                else if e@ == "wav"@ { assert(media_exts()[1] == e@); }
                else if e@ == "m4a"@ { assert(media_exts()[2] == e@); }
                else if e@ == "mp4"@ { assert(media_exts()[3] == e@); }
                else { assert(media_exts()[4] == e@); }
            }
        }
        let mut m: Vec<char> = Vec::new();
        push_str(&mut m, "audio/video ingest (");
        push_str(&mut m, arg);
        push_str(&mut m, ") requires a build with `--features media` (ffmpeg/whisper) - roadmap");
        Err(string_of(&m))
    } else {
        proof {
            assert(!image_exts().contains(e@)) by {
                if image_exts().contains(e@) {
                    let k = choose|k: int| 0 <= k < image_exts().len() && image_exts()[k] == e@;
                }
            }
            assert(!media_exts().contains(e@)) by {
                if media_exts().contains(e@) {
                    let k = choose|k: int| 0 <= k < media_exts().len() && media_exts()[k] == e@;
                }
            }
        }
        Err(string_of(&unsupported))
    }
}

/// A web page's text as document chunks: split into chunks of type `web`
/// whose source is the page's address.
pub fn ingest_web_text(text: &str, url: &str) -> (r: Vec<DocChunk>)
    ensures
        chunk_views(r@) == chunks_of(text@, "web"@, url@),
{
    chunk(text, "web", url)
}

/// A PDF document's text as document chunks: split into chunks of type
/// `pdf` whose source is the file's path.
pub fn ingest_pdf_text(text: &str, source: &str) -> (r: Vec<DocChunk>)
    ensures
        chunk_views(r@) == chunks_of(text@, "pdf"@, source@),
{
    chunk(text, "pdf", source)
}


/// An input read from the web: an `http://` or `https://` URL.
pub open spec fn is_web_url(arg: Seq<char>) -> bool {
    (arg.len() >= 7 && arg.take(7) == "http://"@) || (arg.len() >= 8 && arg.take(8) == "https://"@)
}

/// Law: a URL is read from the web; any other input whose ASCII-lowercased
/// extension is `pdf` is read as a PDF, and one whose extension is `txt`,
/// `md`, `markdown` or `rst` (the prose the unsupported-input message
/// names) as text; and nothing else is read as text.
pub proof fn law_ingest_plan_by_extension(arg: Seq<char>)
    ensures
        is_web_url(arg) ==> ingest_plan_of(arg) == Ok::<IngestSource, Seq<char>>(IngestSource::Web),
        !is_web_url(arg) && input_ext(arg) == Some("pdf"@) ==> ingest_plan_of(arg) == Ok::<IngestSource, Seq<char>>(
            IngestSource::Pdf,
        ),
        !is_web_url(arg) && (input_ext(arg) == Some("txt"@) || input_ext(arg) == Some("md"@) || input_ext(arg) == Some(
            "markdown"@,
        ) || input_ext(arg) == Some("rst"@)) ==> ingest_plan_of(arg) == Ok::<IngestSource, Seq<char>>(
            IngestSource::Text,
        ),
        ingest_plan_of(arg) == Ok::<IngestSource, Seq<char>>(IngestSource::Text) ==> !is_web_url(arg) && (input_ext(
            arg,
        ) == Some("txt"@) || input_ext(arg) == Some("md"@) || input_ext(arg) == Some("markdown"@) || input_ext(arg)
            == Some("rst"@)),
{
    reveal_strlit("http://");
    reveal_strlit("https://");
    reveal_strlit("pdf");
    reveal_strlit("txt");
    reveal_strlit("md");
    reveal_strlit("markdown");
    reveal_strlit("rst");
    assert("txt"@[0] != "pdf"@[0]);
    assert("rst"@[0] != "pdf"@[0]);
    assert("md"@.len() != "pdf"@.len());
    assert("markdown"@.len() != "pdf"@.len());
}


proof fn lemma_pack_nonempty(paras: Seq<Seq<char>>)
    ensures
        forall|k: int| 0 <= k < pack(paras).0.len() ==> (#[trigger] pack(paras).0[k]).len() > 0,
    decreases paras.len(),
{
    if paras.len() > 0 {
        lemma_pack_nonempty(paras.drop_last());
        let (done, buf) = pack(paras.drop_last());
        let all = pack(paras).0;
        assert forall|k: int| 0 <= k < all.len() implies (#[trigger] all[k]).len() > 0 by {
            if k < done.len() {
                assert(all[k] == done[k]);
            }
        }
    }
}

/// Law: a document is never split into an empty chunk, and every chunk is
/// labelled with the document's content type and source.
pub proof fn law_chunks_nonempty(text: Seq<char>, ctype: Seq<char>, source: Seq<char>)
    ensures
        forall|k: int|
            0 <= k < chunks_of(text, ctype, source).len() ==> (#[trigger] chunks_of(text, ctype, source)[k]).text.len() > 0
                && chunks_of(text, ctype, source)[k].content_type == ctype && chunks_of(text, ctype, source)[k].source
                == source,
{
    let (done, buf) = pack(paragraphs_raw(text));
    lemma_pack_nonempty(paragraphs_raw(text));
    let ts = chunk_texts(text);
    assert forall|k: int| 0 <= k < ts.len() implies (#[trigger] ts[k]).len() > 0 by {
        if k < done.len() {
            assert(ts[k] == done[k]);
        }
    }
}


proof fn lemma_trim_start_first(s: Seq<char>)
    ensures
        trim_start(s).len() > 0 ==> !crate::text::unicode_whitespace(trim_start(s)[0]),
    decreases s.len(),
{
    if s.len() > 0 && crate::text::unicode_whitespace(s[0]) {
        lemma_trim_start_first(s.drop_first());
    }
}

proof fn lemma_trim_end_prefix(s: Seq<char>)
    ensures
        trim_end(s).len() <= s.len(),
        forall|k: int| 0 <= k < trim_end(s).len() ==> #[trigger] trim_end(s)[k] == s[k],
        s.len() > 0 && !crate::text::unicode_whitespace(s[0]) ==> trim_end(s).len() > 0,
    decreases s.len(),
{
    if s.len() > 0 && crate::text::unicode_whitespace(s.last()) {
        lemma_trim_end_prefix(s.drop_last());
        if s.len() == 1 {
            assert(s.last() == s[0]);
        }
    }
}

/// A trimmed non-empty text begins with a non-whitespace character.
proof fn lemma_trimmed_first(p: Seq<char>)
    ensures
        trimmed(p).len() > 0 ==> !crate::text::unicode_whitespace(trimmed(p)[0]),
{
    lemma_trim_start_first(p);
    lemma_trim_end_prefix(trim_start(p));
}

/// Law: a document of two non-blank paragraphs is packed by size: when the
/// first (with its blank line) and the second together exceed 1500 bytes
/// they form two chunks, the first keeping its blank line; otherwise they
/// share one chunk, the paragraphs joined by a blank line.
pub proof fn law_two_paragraph_chunks(text: Seq<char>, p1: Seq<char>, p2: Seq<char>)
    requires
        paragraphs_raw(text) == seq![p1, p2],
        trimmed(p1).len() > 0,
        trimmed(p2).len() > 0,
    ensures
        ({
            let (a, b) = (trimmed(p1), trimmed(p2));
            if utf8_len(a + "\n\n"@) + utf8_len(b) > 1500 {
                chunk_texts(text) == seq![a + "\n\n"@, trimmed(b + "\n\n"@)]
            } else {
                chunk_texts(text) == seq![trimmed(a + "\n\n"@ + b + "\n\n"@)]
            }
        }),
{
    let (a, b) = (trimmed(p1), trimmed(p2));
    let ps = seq![p1, p2];
    assert(ps.drop_last() =~= seq![p1]);
    assert(seq![p1].drop_last() =~= Seq::<Seq<char>>::empty());
    assert(seq![p1].last() == p1);
    assert(pack(Seq::<Seq<char>>::empty()).1.len() == 0);
    assert(pack(seq![p1]).0 =~= Seq::<Seq<char>>::empty());
    assert(pack(seq![p1]).1 =~= a + "\n\n"@);
    assert(ps.last() == p2);
    lemma_trimmed_first(p1);
    lemma_trimmed_first(p2);
    let ab = a + "\n\n"@ + b + "\n\n"@;
    let bb = b + "\n\n"@;
    assert(ab[0] == a[0]);
    assert(bb[0] == b[0]);
    lemma_trim_start_first(ab);
    lemma_trim_start_first(bb);
    assert(trim_start(ab) == ab);
    assert(trim_start(bb) == bb);
    lemma_trim_end_prefix(ab);
    lemma_trim_end_prefix(bb);
    assert((a + "\n\n"@).len() > 0);
}

} // verus!
