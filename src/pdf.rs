//! Planning a document from the chosen pages: which frame goes on each page,
//! at what size and scale, and under which file name.
use vstd::prelude::*;
use crate::ledger::{ScanEntry, SelectionLedger};

verus! {

/// The file name used when the user gives none.
pub const DEFAULT_FILE_NAME: &'static str = "scan.pdf";

/// The resolution frames are taken to be scanned at, in dots per inch.
pub const DEFAULT_SCAN_DPI: u32 = 300;

/// Micrometres in an inch.
pub const MICROMETRES_PER_INCH: u128 = 25400;

/// Whether a character has the Unicode `White_Space` property.
pub open spec fn is_white_space(c: char) -> bool {
    let u = c as u32;
    ||| 9 <= u <= 13
    ||| u == 0x20
    ||| u == 0x85
    ||| u == 0xa0
    ||| u == 0x1680
    ||| 0x2000 <= u <= 0x200a
    ||| u == 0x2028
    ||| u == 0x2029
    ||| u == 0x202f
    ||| u == 0x205f
    ||| u == 0x3000
}

/// Whether a character has the Unicode `White_Space` property.
pub fn char_is_white_space(c: char) -> (r: bool)
    ensures
        r == is_white_space(c),
{
    let u = c as u32;
    (9 <= u && u <= 13) || u == 0x20 || u == 0x85 || u == 0xa0 || u == 0x1680 || (0x2000 <= u
        && u <= 0x200a) || u == 0x2028 || u == 0x2029 || u == 0x202f || u == 0x205f || u == 0x3000
}

/// The physical size of a document page.
#[derive(Debug, Clone, Copy, PartialEq, Eq, Structural)]
pub struct PageSize {
    pub width_um: u32,
    pub height_um: u32,
}

impl PageSize {
    /// US Letter, 8.5 by 11 inches.
    pub fn letter() -> (r: PageSize)
        ensures
            r.width_um == 215900,
            r.height_um == 279400,
    {
        PageSize { width_um: 215900, height_um: 279400 }
    }

    /// ISO 216 A4, 210 by 297 millimetres.
    pub fn a4() -> (r: PageSize)
        ensures
            r.width_um == 210000,
            r.height_um == 297000,
    {
        PageSize { width_um: 210000, height_um: 297000 }
    }
}

/// A non-negative fraction.
#[derive(Debug, Clone, Copy, PartialEq, Eq, Structural)]
pub struct Ratio {
    pub num: u128,
    pub den: u128,
}

/// One page of a planned document.
#[derive(Debug, Clone, Copy, PartialEq, Eq, Structural)]
pub struct PdfPagePlan {
    /// The frame drawn on the page.
    pub page_index: usize,
    pub width_px: usize,
    pub height_px: usize,
    /// How much the frame is stretched across, to fill the page.
    pub scale_x: Ratio,
    /// How much the frame is stretched down, to fill the page.
    pub scale_y: Ratio,
}

/// Why no document is written.
#[derive(Debug, Clone, Copy, PartialEq, Eq, Structural)]
pub enum SaveError {
    /// No page is chosen.
    NoPagesSelected,
    /// No folder to save in is chosen.
    NoOutputLocation,
    /// A chosen page names no frame.
    PageOutOfRange,
}

/// How a save ended without error.
#[derive(Debug, Clone, Copy, PartialEq, Eq, Structural)]
pub enum SaveStatus {
    Completed,
    /// The user declined to create the folder or to overwrite the file.
    Cancelled,
}

/// The scale that stretches `px` pixels at `dpi` dots per inch over `um`
/// micrometres: the target length in inches over the frame's length in inches.
pub open spec fn scale_for(um: u32, px: usize, dpi: u32) -> Ratio {
    Ratio { num: (um as int * dpi as int) as u128, den: (MICROMETRES_PER_INCH * px as int) as u128 }
}

/// The plan of the page that shows `frame`.
pub open spec fn page_plan<H>(index: usize, frame: ScanEntry<H>, size: PageSize, dpi: u32) -> PdfPagePlan {
    PdfPagePlan {
        page_index: index,
        width_px: frame.width,
        height_px: frame.height,
        scale_x: scale_for(size.width_um, frame.width, dpi),
        scale_y: scale_for(size.height_um, frame.height, dpi),
    }
}

/// What planning a document gives: an error, or one page per ledger entry.
pub open spec fn plan_outcome<H>(
    ledger: Seq<usize>,
    pages: Seq<ScanEntry<H>>,
    has_location: bool,
    size: PageSize,
    dpi: u32,
) -> Result<Seq<PdfPagePlan>, SaveError> {
    if ledger.len() == 0 {
        Err(SaveError::NoPagesSelected)
    } else if !has_location {
        Err(SaveError::NoOutputLocation)
    } else if exists|n: int| 0 <= n < ledger.len() && ledger[n] >= pages.len() {
        Err(SaveError::PageOutOfRange)
    } else {
        Ok(
            Seq::new(
                ledger.len(),
                |n: int| page_plan(ledger[n], pages[ledger[n] as int], size, dpi),
            ),
        )
    }
}

/// Plans the document of the chosen pages, in ledger order, each frame
/// stretched to fill a page of `size`. Nothing is written here.
pub fn plan_pdf<H>(
    ledger: &SelectionLedger,
    pages: &Vec<ScanEntry<H>>,
    has_location: bool,
    size: PageSize,
    dpi: u32,
) -> (r: Result<Vec<PdfPagePlan>, SaveError>)
    ensures
        match r {
            Ok(plan) => plan_outcome(ledger@, pages@, has_location, size, dpi) == Ok::<
                Seq<PdfPagePlan>,
                SaveError,
            >(plan@),
            Err(x) => plan_outcome(ledger@, pages@, has_location, size, dpi) == Err::<
                Seq<PdfPagePlan>,
                SaveError,
            >(x),
        },
{
    let count = ledger.selected_page_indices.len();
    if count == 0 {
        return Err(SaveError::NoPagesSelected);
    }
    if !has_location {
        return Err(SaveError::NoOutputLocation);
    }
    let mut plan: Vec<PdfPagePlan> = Vec::new();
    let mut n: usize = 0;
    while n < count
        invariant
            n <= count,
            count == ledger@.len(),
            count > 0,
            has_location,
            plan@.len() == n,
            forall|k: int| 0 <= k < n ==> #[trigger] ledger@[k] < pages@.len(),
            forall|k: int|
                0 <= k < n ==> #[trigger] plan@[k] == page_plan(
                    ledger@[k],
                    pages@[ledger@[k] as int],
                    size,
                    dpi,
                ),
        decreases count - n,
    {
        let i = ledger.selected_page_indices[n];
        if i >= pages.len() {
            assert(ledger@[n as int] >= pages@.len());
            return Err(SaveError::PageOutOfRange);
        }
        let frame = &pages[i];
        proof {
            assert(size.width_um as int * dpi as int <= 0xffff_ffff * 0xffff_ffff) by (nonlinear_arith)
                requires
                    size.width_um <= 0xffff_ffff,
                    dpi <= 0xffff_ffff,
            ;
            assert(size.height_um as int * dpi as int <= 0xffff_ffff * 0xffff_ffff) by (nonlinear_arith)
                requires
                    size.height_um <= 0xffff_ffff,
                    dpi <= 0xffff_ffff,
            ;
        }
        let scale_x = Ratio {
            num: size.width_um as u128 * dpi as u128,
            den: MICROMETRES_PER_INCH * frame.width as u128,
        };
        let scale_y = Ratio {
            num: size.height_um as u128 * dpi as u128,
            den: MICROMETRES_PER_INCH * frame.height as u128,
        };
        plan.push(
            PdfPagePlan {
                page_index: i,
                width_px: frame.width,
                height_px: frame.height,
                scale_x,
                scale_y,
            },
        );
        n = n + 1;
    }
    proof {
        let want = Seq::new(
            ledger@.len(),
            |k: int| page_plan(ledger@[k], pages@[ledger@[k] as int], size, dpi),
        );
        assert(plan@ =~= want);
    }
    Ok(plan)
}

/// Whether a text is empty or white space only.
pub open spec fn is_blank(s: Seq<char>) -> bool {
    forall|i: int| 0 <= i < s.len() ==> is_white_space(#[trigger] s[i])
}

/// Whether a text is empty or white space only.
pub fn text_is_blank(s: &str) -> (r: bool)
    ensures
        r == is_blank(s@),
{
    let n = s.unicode_len();
    let mut i: usize = 0;
    while i < n
        invariant
            i <= n,
            n == s@.len(),
            forall|k: int| 0 <= k < i ==> is_white_space(#[trigger] s@[k]),
        decreases n - i,
    {
        if !char_is_white_space(s.get_char(i)) {
            return false;
        }
        i = i + 1;
    }
    true
}

/// The name of the document file: the default for a blank name, else the
/// name with `.pdf` after it.
pub fn pdf_file_name(file_save_path: &str) -> (r: String)
    ensures
        is_blank(file_save_path@) ==> r@ == DEFAULT_FILE_NAME@,
        !is_blank(file_save_path@) ==> r@ == file_save_path@ + ".pdf"@,
{
    if text_is_blank(file_save_path) {
        String::from_str(DEFAULT_FILE_NAME)
    } else {
        String::from_str(file_save_path).concat(".pdf")
    }
}

} // verus!
