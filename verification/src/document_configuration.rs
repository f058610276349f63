//! The configuration of the rendering of a document: the size of its pages, its font
//! size and magnification, and the font file of each font family.
use vstd::prelude::*;
use crate::strings::str_chars;

verus! {

/// The font file of a font family.
#[derive(Debug)]
pub struct FontAssociation {
    /// The name of the font family.
    pub font_family: String,
    /// The path of the font file.
    pub font_file_path: String,
}

/// The configuration of the rendering of a document. The magnification is the bit pattern
/// of a single-precision value.
#[derive(Debug)]
pub struct DocumentConfiguration {
    pub page_width: u32,
    pub page_height: u32,
    pub font_size: u32,
    pub global_magnification: u32,
    pub font_associations: Vec<FontAssociation>,
}

/// The font file path of the first association of the given family, if any.
pub open spec fn first_font_path(associations: Seq<FontAssociation>, font_family: Seq<char>) -> Option<Seq<char>>
    decreases associations.len(),
{
    if associations.len() == 0 {
        None
    } else if associations[0].font_family@ == font_family {
        Some(associations[0].font_file_path@)
    } else {
        first_font_path(associations.drop_first(), font_family)
    }
}

/// Whether two texts are equal.
pub fn texts_equal(a: &str, b: &str) -> (r: bool)
    ensures
        r == (a@ == b@),
{
    let a_chars = str_chars(a);
    let b_chars = str_chars(b);
    if a_chars.len() != b_chars.len() {
        assert(a@.len() != b@.len());
        return false;
    }
    let mut i: usize = 0;
    while i < a_chars.len()
        invariant
            i <= a_chars.len(),
            a_chars@.len() == b_chars@.len(),
            a_chars@ == a@,
            b_chars@ == b@,
            forall|j: int| 0 <= j < i ==> a_chars@[j] == b_chars@[j],
        decreases a_chars.len() - i,
    {
        if a_chars[i] != b_chars[i] {
            assert(a@[i as int] != b@[i as int]);
            return false;
        }
        i = i + 1;
    }
    assert(a_chars@ =~= b_chars@);
    true
}

impl DocumentConfiguration {
    /// The font file path of the given font family: that of the first association of the
    /// family, if there is one.
    pub fn get_font_path(&self, font_family: &str) -> (r: Option<String>)
        ensures
            match r {
                Some(path) => first_font_path(self.font_associations@, font_family@) == Some(path@),
                None => first_font_path(self.font_associations@, font_family@) is None,
            },
    {
        let mut i: usize = 0;
        assert(self.font_associations@.skip(0) =~= self.font_associations@);
        while i < self.font_associations.len()
            invariant
                i <= self.font_associations@.len(),
                first_font_path(self.font_associations@, font_family@) == first_font_path(
                    self.font_associations@.skip(i as int),
                    font_family@,
                ),
            decreases self.font_associations@.len() - i,
        {
            let ghost rest = self.font_associations@.skip(i as int);
            assert(rest[0] == self.font_associations@[i as int]);
            if texts_equal(self.font_associations[i].font_family.as_str(), font_family) {
                return Some(self.font_associations[i].font_file_path.clone());
            }
            assert(rest.drop_first() =~= self.font_associations@.skip(i as int + 1));
            i = i + 1;
        }
        None
    }
}

} // verus!
