//! The textual listing of one raw minidump stream: its NUL-separated byte
//! chunks decoded leniently and joined with a visible separator, under a
//! `Stream <name>:` heading.

use vstd::prelude::*;

use crate::text::chars_to_string;
use crate::text::push_str_chars;

verus! {

/// The position of the first NUL byte, if any.
pub open spec fn first_nul(b: Seq<u8>) -> Option<int>
    decreases b.len(),
{
    if b.len() == 0 {
        Option::None
    } else if b[0] == 0 {
        Option::Some(0)
    } else {
        match first_nul(b.skip(1)) {
            Option::Some(j) => Option::Some(j + 1),
            Option::None => Option::None,
        }
    }
}

proof fn lemma_first_nul_some(s: Seq<u8>, k: int)
    requires
        0 <= k < s.len(),
        s[k] == 0,
        forall|j: int| 0 <= j < k ==> s[j] != 0,
    ensures
        first_nul(s) == Option::Some(k),
    decreases k,
{
    if k > 0 {
        assert(forall|j: int| 0 <= j < k - 1 ==> s.skip(1)[j] == s[j + 1]);
        assert(s.skip(1)[k - 1] == s[k]);
        lemma_first_nul_some(s.skip(1), k - 1);
    }
}

proof fn lemma_first_nul_none(s: Seq<u8>)
    requires
        forall|j: int| 0 <= j < s.len() ==> s[j] != 0,
    ensures
        first_nul(s) is None,
    decreases s.len(),
{
    if s.len() > 0 {
        assert(forall|j: int| 0 <= j < s.len() - 1 ==> s.skip(1)[j] == s[j + 1]);
        lemma_first_nul_none(s.skip(1));
    }
}

/// What the lenient UTF-8 decoding of a byte sequence reads as, after
/// invalid sequences are replaced.
pub uninterp spec fn utf8_lossy_of(b: Seq<u8>) -> Seq<char>;

/// Relies on `String::from_utf8_lossy`: the decoding is a function of the
/// bytes alone, and no bytes decode to no text.
#[verifier::external_body]
fn utf8_lossy(b: &[u8]) -> (r: String)
    ensures
        r@ == utf8_lossy_of(b@),
        b@.len() == 0 ==> r@.len() == 0,
{
    String::from_utf8_lossy(b).into_owned()
}

/// The NUL-separated chunks of `b`, each decoded leniently, joined with a
/// visible `\0` separator and a line break.
pub open spec fn lossy_join(b: Seq<u8>) -> Seq<char>
    decreases b.len(),
{
    match first_nul(b) {
        Option::None => utf8_lossy_of(b),
        Option::Some(i) => if 0 <= i < b.len() {
            utf8_lossy_of(b.take(i)) + seq!['\\', '0', '\n'] + lossy_join(b.skip(i + 1))
        } else {
            utf8_lossy_of(b)
        },
    }
}

/// The whole listing of one raw stream.
pub open spec fn stream_text(name: Seq<char>, b: Seq<u8>) -> Seq<char> {
    "Stream "@ + name + ":\n"@ + lossy_join(b) + "\n\n"@
}

fn push_lossy_join(out: &mut Vec<char>, b: &[u8], pos: usize)
    requires
        pos <= b@.len(),
    ensures
        final(out)@ == old(out)@ + lossy_join(b@.skip(pos as int)),
    decreases b@.len() - pos,
{
    let len = b.len();
    let mut j: usize = pos;
    while j < len && b[j] != 0
        invariant
            pos <= j <= len,
            len == b@.len(),
            forall|k: int| pos <= k < j ==> b@[k] != 0,
        decreases len - j,
    {
        j = j + 1;
    }
    let ghost suffix = b@.skip(pos as int);
    proof {
        assert(forall|k: int| 0 <= k < j - pos ==> suffix[k] == b@[k + pos]);
        if j < len {
            assert(suffix[j - pos] == b@[j as int]);
            lemma_first_nul_some(suffix, j - pos);
        } else {
            lemma_first_nul_none(suffix);
        }
    }
    let mut chunk: Vec<u8> = Vec::new();
    let mut k: usize = pos;
    while k < j
        invariant
            pos <= k <= j <= len,
            len == b@.len(),
            chunk@ == b@.subrange(pos as int, k as int),
        decreases j - k,
    {
        chunk.push(b[k]);
        proof {
            assert(b@.subrange(pos as int, k + 1) =~= b@.subrange(pos as int, k as int).push(
                b@[k as int],
            ));
        }
        k = k + 1;
    }
    let text = utf8_lossy(chunk.as_slice());
    push_str_chars(out, text.as_str());
    proof {
        assert(chunk@ =~= suffix.take(j - pos));
    }
    if j < len {
        out.push('\\');
        out.push('0');
        out.push('\n');
        push_lossy_join(out, b, j + 1);
        proof {
            assert(b@.skip(j + 1) =~= suffix.skip(j - pos + 1));
            assert(out@ =~= old(out)@ + lossy_join(suffix));
        }
    } else {
        proof {
            assert(suffix.take(j - pos) =~= suffix);
            assert(out@ =~= old(out)@ + lossy_join(suffix));
        }
    }
}

/// Renders one raw stream's contents: a `Stream <name>:` heading, then the
/// NUL-separated chunks decoded leniently, joined with a visible `\0`
/// separator, and a closing blank line.
pub fn print_raw_stream(name: &str, contents: &[u8]) -> (r: String)
    ensures
        r@ == stream_text(name@, contents@),
{
    let mut out: Vec<char> = Vec::new();
    push_str_chars(&mut out, "Stream ");
    push_str_chars(&mut out, name);
    push_str_chars(&mut out, ":\n");
    push_lossy_join(&mut out, contents, 0);
    push_str_chars(&mut out, "\n\n");
    proof {
        assert(contents@.skip(0) =~= contents@);
        assert(out@ =~= stream_text(name@, contents@));
    }
    chars_to_string(&out)
}

} // verus!
