//! The SVG document skeleton handed to rendering front ends. Only the
//! buffer and its fixed header live here: shape emission works on
//! fractional viewport coordinates and file output does I/O, so both
//! stay with the rendering front end, which appends to the public
//! buffer and writes it out.

use vstd::prelude::*;
use vstd::string::StringExecFns;

verus! {

/// An SVG document under construction: the XML prologue and a growing
/// body of shape elements, closed by the consumer when saved.
pub struct SVG {
    /// The document text so far; rendering front ends append shape
    /// elements and the closing tag.
    pub buffer: String,
}

impl SVG {
    /// The prologue `new` writes, as a character sequence.
    pub open spec fn header() -> Seq<char> {
        "<?xml version='1.0' encoding='UTF-8'?> \n<!DOCTYPE svg PUBLIC '-//W3C//DTD SVG 1.1//EN' 'http://www.w3.org/Graphics/SVG/1.1/DTD/svg11.dtd'>\n<svg xmlns='http://www.w3.org/2000/svg'\nxmlns:xlink='http://www.w3.org/1999/xlink' xmlns:ev='http://www.w3.org/2001/xml-events'\nversion='1.1' baseProfile='full' width='800px' height='800px' viewBox='-0.05 -0.05 1.10 1.10'>\n\n<rect x='-0.05' y='-0.05' width='1.10' height='1.10' fill='white' />\n"@
    }

    /// A document holding exactly the fixed XML prologue: an 800 by 800
    /// pixel canvas over a unit viewport with a white background.
    pub fn new() -> (s: SVG)
        ensures
            s.buffer@ == SVG::header(),
    {
        let buffer = String::from_str(
            "<?xml version='1.0' encoding='UTF-8'?> \n<!DOCTYPE svg PUBLIC '-//W3C//DTD SVG 1.1//EN' 'http://www.w3.org/Graphics/SVG/1.1/DTD/svg11.dtd'>\n<svg xmlns='http://www.w3.org/2000/svg'\nxmlns:xlink='http://www.w3.org/1999/xlink' xmlns:ev='http://www.w3.org/2001/xml-events'\nversion='1.1' baseProfile='full' width='800px' height='800px' viewBox='-0.05 -0.05 1.10 1.10'>\n\n<rect x='-0.05' y='-0.05' width='1.10' height='1.10' fill='white' />\n",
        );
        SVG { buffer }
    }
}

impl Default for SVG {
    /// The same fresh document as `new`.
    fn default() -> (s: SVG)
        ensures
            s.buffer@ == SVG::header(),
    {
        SVG::new()
    }
}

} // verus!
