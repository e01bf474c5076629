//! One row of the glyph listing that the metadata extraction service yields,
//! paired with the loaded outline data, and the parser for the tab-separated
//! listing itself.

use vstd::prelude::*;

use crate::glif::{Glif, GlifView};
use crate::strutil::{lines, lines_of, split_on, split_str, str_seq_view};

verus! {

/// A glyph as the viewer holds it: the listing row's fields plus the loaded
/// outline. `glifname` and `filename` identify the glyph for cache use.
#[derive(Debug)]
pub struct GlyphEntry {
    pub glifname: String,
    pub codepoints: String,
    pub uniname: String,
    pub unicat: String,
    pub filename: String,
    pub glif: Glif,
}

/// The mathematical value of a `GlyphEntry`.
#[verifier::ext_equal]
pub struct GlyphEntryView {
    pub glifname: Seq<char>,
    pub codepoints: Seq<char>,
    pub uniname: Seq<char>,
    pub unicat: Seq<char>,
    pub filename: Seq<char>,
    pub glif: GlifView,
}

impl View for GlyphEntry {
    type V = GlyphEntryView;

    open spec fn view(&self) -> GlyphEntryView {
        GlyphEntryView {
            glifname: self.glifname@,
            codepoints: self.codepoints@,
            uniname: self.uniname@,
            unicat: self.unicat@,
            filename: self.filename@,
            glif: self.glif@,
        }
    }
}

impl Clone for GlyphEntry {
    fn clone(&self) -> (r: Self)
        ensures
            r@ == self@,
    {
        let r = GlyphEntry {
            glifname: self.glifname.clone(),
            codepoints: self.codepoints.clone(),
            uniname: self.uniname.clone(),
            unicat: self.unicat.clone(),
            filename: self.filename.clone(),
            glif: self.glif.clone(),
        };
        proof {
            assert(r@ =~= self@);
        }
        r
    }
}

/// The identity by which the render cache keys entries: glyph name plus the
/// file it was read from.
pub open spec fn same_identity(a: GlyphEntryView, b: GlyphEntryView) -> bool {
    a.glifname == b.glifname && a.filename == b.filename
}

impl GlyphEntry {
    /// Whether two entries name the same glyph identity (name + file).
    pub fn identity_eq(&self, other: &GlyphEntry) -> (r: bool)
        ensures
            r <==> same_identity(self@, other@),
    {
        crate::strutil::str_eq(self.glifname.as_str(), other.glifname.as_str())
            && crate::strutil::str_eq(self.filename.as_str(), other.filename.as_str())
    }
}

/// One row of the tab-separated glyph listing, before its outline file is
/// loaded.
#[derive(Debug)]
pub struct TsvRow {
    pub glifname: String,
    pub codepoints: String,
    pub uniname: String,
    pub unicat: String,
    pub filename: String,
}

/// The plain-value content of a row.
#[verifier::ext_equal]
pub struct TsvRowSpec {
    pub glifname: Seq<char>,
    pub codepoints: Seq<char>,
    pub uniname: Seq<char>,
    pub unicat: Seq<char>,
    pub filename: Seq<char>,
}

impl View for TsvRow {
    type V = TsvRowSpec;

    open spec fn view(&self) -> TsvRowSpec {
        TsvRowSpec {
            glifname: self.glifname@,
            codepoints: self.codepoints@,
            uniname: self.uniname@,
            unicat: self.unicat@,
            filename: self.filename@,
        }
    }
}

/// The views of a sequence of rows, element by element.
pub open spec fn row_seq_view(s: Seq<TsvRow>) -> Seq<TsvRowSpec> {
    Seq::new(s.len(), |i: int| s[i]@)
}

/// Why a tab-separated listing was rejected.
#[derive(Debug, PartialEq, Eq, Structural)]
pub enum TsvError {
    MissingColumn,
    RaggedRow,
}

/// The column of the header carrying the given name: the last matching one
/// when a name repeats.
pub open spec fn col_of(header: Seq<Seq<char>>, name: Seq<char>) -> Option<int>
    decreases header.len(),
{
    if header.len() == 0 {
        None
    } else if header.last() == name {
        Some(header.len() - 1)
    } else {
        col_of(header.drop_last(), name)
    }
}

/// The header row of a listing: its first line split at tabs, empty when
/// the listing has no lines at all.
pub open spec fn tsv_header(s: Seq<char>) -> Seq<Seq<char>> {
    if lines_of(s).len() == 0 {
        Seq::empty()
    } else {
        split_on(lines_of(s)[0], '\t')
    }
}

/// Whether the listing parses: the header names all five expected columns
/// and every nonempty data line has exactly as many fields as the header.
pub open spec fn tsv_ok(s: Seq<char>) -> bool {
    &&& col_of(tsv_header(s), "glifname"@) is Some
    &&& col_of(tsv_header(s), "codepoints"@) is Some
    &&& col_of(tsv_header(s), "uniname"@) is Some
    &&& col_of(tsv_header(s), "unicat"@) is Some
    &&& col_of(tsv_header(s), "filename"@) is Some
    &&& forall|i: int|
        1 <= i < lines_of(s).len() && (#[trigger] lines_of(s)[i]).len() > 0 ==> split_on(
            lines_of(s)[i],
            '\t',
        ).len() == tsv_header(s).len()
}

/// The row described by a data line, under the header's column positions.
pub open spec fn tsv_row_of(s: Seq<char>, line: Seq<char>) -> TsvRowSpec {
    let fs = split_on(line, '\t');
    TsvRowSpec {
        glifname: fs[col_of(tsv_header(s), "glifname"@)->0],
        codepoints: fs[col_of(tsv_header(s), "codepoints"@)->0],
        uniname: fs[col_of(tsv_header(s), "uniname"@)->0],
        unicat: fs[col_of(tsv_header(s), "unicat"@)->0],
        filename: fs[col_of(tsv_header(s), "filename"@)->0],
    }
}

/// The rows of a listing, in order: one per nonempty data line.
pub open spec fn tsv_rows(s: Seq<char>) -> Seq<TsvRowSpec> {
    lines_of(s).skip(1).filter(|l: Seq<char>| l.len() > 0).map_values(
        |l: Seq<char>| tsv_row_of(s, l),
    )
}

/// Finds the column carrying the given name, keeping the last on repeats.
fn find_col(header: &Vec<String>, name: &str) -> (r: Option<usize>)
    ensures
        match r {
            Some(c) => col_of(str_seq_view(header@), name@) == Some(c as int),
            None => col_of(str_seq_view(header@), name@) is None,
        },
{
    let mut r: Option<usize> = None;
    let mut k: usize = 0;
    while k < header.len()
        invariant
            k <= header@.len(),
            match r {
                Some(c) => col_of(str_seq_view(header@).subrange(0, k as int), name@) == Some(
                    c as int,
                ),
                None => col_of(str_seq_view(header@).subrange(0, k as int), name@) is None,
            },
        decreases header@.len() - k,
    {
        proof {
            assert(str_seq_view(header@).subrange(0, k + 1).drop_last() =~= str_seq_view(
                header@,
            ).subrange(0, k as int));
            assert(str_seq_view(header@).subrange(0, k + 1).last() == header@[k as int]@);
        }
        if crate::strutil::str_eq(header[k].as_str(), name) {
            r = Some(k);
        }
        k = k + 1;
    }
    proof {
        assert(str_seq_view(header@).subrange(0, header@.len() as int) =~= str_seq_view(header@));
    }
    r
}

/// Parses the tab-separated glyph listing: the first line names the columns,
/// each further nonempty line is one glyph row with exactly one field per
/// column. Rejects a listing whose header lacks one of the five expected
/// columns, or whose data lines are ragged against the header.
#[verifier::loop_isolation(false)]
pub fn parse_tsv(tsv_data: &str) -> (r: Result<Vec<TsvRow>, TsvError>)
    ensures
        r is Ok <==> tsv_ok(tsv_data@),
        match r {
            Ok(v) => row_seq_view(v@) == tsv_rows(tsv_data@),
            Err(TsvError::MissingColumn) => {
                ||| col_of(tsv_header(tsv_data@), "glifname"@) is None
                ||| col_of(tsv_header(tsv_data@), "codepoints"@) is None
                ||| col_of(tsv_header(tsv_data@), "uniname"@) is None
                ||| col_of(tsv_header(tsv_data@), "unicat"@) is None
                ||| col_of(tsv_header(tsv_data@), "filename"@) is None
            },
            Err(TsvError::RaggedRow) => exists|i: int|
                1 <= i < lines_of(tsv_data@).len() && (#[trigger] lines_of(tsv_data@)[i]).len() > 0
                    && split_on(lines_of(tsv_data@)[i], '\t').len() != tsv_header(
                    tsv_data@,
                ).len(),
        },
{
    let ghost ls = lines_of(tsv_data@);
    let all_lines = lines(tsv_data);
    if all_lines.len() == 0 {
        proof {
            assert(tsv_header(tsv_data@) =~= Seq::<Seq<char>>::empty());
            assert(col_of(tsv_header(tsv_data@), "glifname"@) is None);
        }
        return Err(TsvError::MissingColumn);
    }
    let header = split_str(all_lines[0].as_str(), '\t');
    proof {
        assert(all_lines@[0]@ == ls[0]);
        assert(str_seq_view(header@) == tsv_header(tsv_data@));
    }
    let ncols = header.len();
    let c_glifname = match find_col(&header, "glifname") {
        Some(c) => c,
        None => {
            return Err(TsvError::MissingColumn);
        },
    };
    let c_codepoints = match find_col(&header, "codepoints") {
        Some(c) => c,
        None => {
            return Err(TsvError::MissingColumn);
        },
    };
    let c_uniname = match find_col(&header, "uniname") {
        Some(c) => c,
        None => {
            return Err(TsvError::MissingColumn);
        },
    };
    let c_unicat = match find_col(&header, "unicat") {
        Some(c) => c,
        None => {
            return Err(TsvError::MissingColumn);
        },
    };
    let c_filename = match find_col(&header, "filename") {
        Some(c) => c,
        None => {
            return Err(TsvError::MissingColumn);
        },
    };
    proof {
        assert(c_glifname < ncols) by {
            lemma_col_in_range(str_seq_view(header@), "glifname"@);
        }
        assert(c_codepoints < ncols) by {
            lemma_col_in_range(str_seq_view(header@), "codepoints"@);
        }
        assert(c_uniname < ncols) by {
            lemma_col_in_range(str_seq_view(header@), "uniname"@);
        }
        assert(c_unicat < ncols) by {
            lemma_col_in_range(str_seq_view(header@), "unicat"@);
        }
        assert(c_filename < ncols) by {
            lemma_col_in_range(str_seq_view(header@), "filename"@);
        }
    }
    let mut out: Vec<TsvRow> = Vec::new();
    let mut li: usize = 1;
    proof {
        assert(ls.skip(1).subrange(0, 0) =~= Seq::<Seq<char>>::empty());
        reveal(Seq::filter);
        assert(row_seq_view(out@) =~= ls.skip(1).subrange(0, 0).filter(
            |l: Seq<char>| l.len() > 0,
        ).map_values(|l: Seq<char>| tsv_row_of(tsv_data@, l)));
    }
    while li < all_lines.len()
        invariant
            1 <= li <= all_lines@.len(),
            ls == lines_of(tsv_data@),
            str_seq_view(all_lines@) == ls,
            str_seq_view(header@) == tsv_header(tsv_data@),
            ncols == header@.len(),
            c_glifname < ncols,
            c_codepoints < ncols,
            c_uniname < ncols,
            c_unicat < ncols,
            c_filename < ncols,
            col_of(tsv_header(tsv_data@), "glifname"@) == Some(c_glifname as int),
            col_of(tsv_header(tsv_data@), "codepoints"@) == Some(c_codepoints as int),
            col_of(tsv_header(tsv_data@), "uniname"@) == Some(c_uniname as int),
            col_of(tsv_header(tsv_data@), "unicat"@) == Some(c_unicat as int),
            col_of(tsv_header(tsv_data@), "filename"@) == Some(c_filename as int),
            forall|j: int|
                1 <= j < li && (#[trigger] ls[j]).len() > 0 ==> split_on(ls[j], '\t').len()
                    == ncols,
            row_seq_view(out@) == ls.skip(1).subrange(0, li - 1).filter(
                |l: Seq<char>| l.len() > 0,
            ).map_values(|l: Seq<char>| tsv_row_of(tsv_data@, l)),
        decreases all_lines@.len() - li,
    {
        let ghost line = ls[li as int];
        let ghost prefix = ls.skip(1).subrange(0, li - 1);
        proof {
            assert(ls.skip(1).subrange(0, li as int) =~= prefix.push(line));
            crate::blocks::lemma_filter_push(prefix, |l: Seq<char>| l.len() > 0, line);
            assert(all_lines@[li as int]@ == line);
        }
        if all_lines[li].as_str().unicode_len() == 0 {
            proof {
                assert(row_seq_view(out@) =~= ls.skip(1).subrange(0, li as int).filter(
                    |l: Seq<char>| l.len() > 0,
                ).map_values(|l: Seq<char>| tsv_row_of(tsv_data@, l)));
            }
        } else {
            let fields = split_str(all_lines[li].as_str(), '\t');
            proof {
                assert(str_seq_view(fields@) == split_on(line, '\t'));
            }
            if fields.len() != ncols {
                proof {
                    assert(ls[li as int].len() > 0);
                }
                return Err(TsvError::RaggedRow);
            }
            let row = TsvRow {
                glifname: fields[c_glifname].clone(),
                codepoints: fields[c_codepoints].clone(),
                uniname: fields[c_uniname].clone(),
                unicat: fields[c_unicat].clone(),
                filename: fields[c_filename].clone(),
            };
            proof {
                assert(fields@[c_glifname as int]@ == split_on(line, '\t')[c_glifname as int]);
                assert(fields@[c_codepoints as int]@ == split_on(line, '\t')[c_codepoints as int]);
                assert(fields@[c_uniname as int]@ == split_on(line, '\t')[c_uniname as int]);
                assert(fields@[c_unicat as int]@ == split_on(line, '\t')[c_unicat as int]);
                assert(fields@[c_filename as int]@ == split_on(line, '\t')[c_filename as int]);
                assert(row@ =~= tsv_row_of(tsv_data@, line));
            }
            let ghost old_out = out@;
            out.push(row);
            proof {
                assert(row_seq_view(out@) =~= row_seq_view(old_out).push(out@.last()@));
                assert(row_seq_view(out@) =~= ls.skip(1).subrange(0, li as int).filter(
                    |l: Seq<char>| l.len() > 0,
                ).map_values(|l: Seq<char>| tsv_row_of(tsv_data@, l)));
            }
        }
        li = li + 1;
    }
    proof {
        assert(ls.skip(1).subrange(0, ls.len() - 1) =~= ls.skip(1));
    }
    Ok(out)
}

/// A found column lies within the header.
proof fn lemma_col_in_range(header: Seq<Seq<char>>, name: Seq<char>)
    ensures
        match col_of(header, name) {
            Some(c) => 0 <= c < header.len() && header[c] == name,
            None => true,
        },
    decreases header.len(),
{
    if header.len() > 0 && header.last() != name {
        lemma_col_in_range(header.drop_last(), name);
    }
}

} // verus!
