//! What an archive holds.
use crate::text;
use vstd::prelude::*;
use vstd::string::StringExecFns;

verus! {

/// One file or directory in an archive. Its path is kept as the archive has it,
/// whether it is text or not.
#[derive(Debug, Clone)]
pub struct Entry {
    pub path: Vec<u8>,
    pub size: u64,
    pub is_dir: bool,
}

/// The text that `String::from_utf8_lossy` makes of bytes.
pub uninterp spec fn lossy_text(bytes: Seq<u8>) -> Seq<char>;

/// Makes text of bytes with `String::from_utf8_lossy`. What is UTF-8 is kept as
/// it is; how the rest is replaced is not said.
#[verifier::external_body]
fn to_text(bytes: &Vec<u8>) -> (r: String)
    ensures
        r@ == lossy_text(bytes@),
        vstd::utf8::valid_utf8(bytes@) ==> r@ == vstd::utf8::decode_utf8(bytes@),
{
    String::from_utf8_lossy(bytes).into_owned()
}

/// `n` spaces.
pub open spec fn spaces(n: nat) -> Seq<char> {
    Seq::new(n, |i: int| ' ')
}

/// Text put to the right of a column of the given width. What is wider stays
/// as it is.
pub open spec fn right_aligned(s: Seq<char>, width: nat) -> Seq<char> {
    if s.len() < width {
        spaces((width - s.len()) as nat) + s
    } else {
        s
    }
}

fn align_right(s: &str, width: usize) -> (r: String)
    ensures
        r@ == right_aligned(s@, width as nat),
{
    let len: usize = s.unicode_len();
    let mut out: String = String::new();
    let mut n: usize = 0;
    let pad: usize = if len < width {
        width - len
    } else {
        0
    };
    while n < pad
        invariant
            n <= pad,
            out@ == spaces(n as nat),
        decreases pad - n,
    {
        proof {
            reveal_strlit(" ");
        }
        out.append(" ");
        n = n + 1;
        assert(out@ =~= spaces(n as nat));
    }
    let r = out.concat(s);
    assert(r@ =~= right_aligned(s@, width as nat));
    r
}

impl Entry {
    /// The entry in a listing: `d` for a directory or `-`, the size in a column
    /// of twelve, and the path as text.
    pub open spec fn line_spec(&self) -> Seq<char> {
        (if self.is_dir {
            "d "@
        } else {
            "- "@
        }) + right_aligned(text::decimal_chars(self.size as nat), 12) + " "@ + lossy_text(
            self.path@,
        )
    }

    /// The entry in a listing.
    pub fn line(&self) -> (r: String)
        ensures
            r@ == self.line_spec(),
    {
        let kind: &'static str = if self.is_dir {
            "d "
        } else {
            "- "
        };
        let size = align_right(text::decimal(self.size).as_str(), 12);
        let path = to_text(&self.path);
        kind.to_owned().concat(size.as_str()).concat(" ").concat(path.as_str())
    }
}

/// A line of a listing shows whether the entry is a directory, its size in
/// decimal to the right of a column of twelve, and its path: two characters, the
/// size behind spaces, a space, and the path to the end.
pub proof fn law_line_shows_the_entry(entry: Entry, r: String)
    requires
        call_ensures(Entry::line, (&entry,), r),
    ensures
        ({
            let digits = text::decimal_chars(entry.size as nat);
            let column = if digits.len() < 12 {
                12int
            } else {
                digits.len() as int
            };
            &&& r@.len() == 3 + column + lossy_text(entry.path@).len()
            &&& r@[0] == (if entry.is_dir {
                'd'
            } else {
                '-'
            })
            &&& forall|i: int| 1 <= i < 2 + column - digits.len() ==> #[trigger] r@[i] == ' '
            &&& r@.subrange(2 + column - digits.len(), 2 + column) == digits
            &&& r@[2 + column] == ' '
            &&& r@.skip(3 + column) == lossy_text(entry.path@)
        }),
{
    reveal_strlit("d ");
    reveal_strlit("- ");
    reveal_strlit(" ");
    let digits = text::decimal_chars(entry.size as nat);
    let column = if digits.len() < 12 {
        12int
    } else {
        digits.len() as int
    };
    assert(r@.subrange(2 + column - digits.len(), 2 + column) =~= digits);
    assert(r@.skip(3 + column) =~= lossy_text(entry.path@));
}

} // verus!
