//! The textual forms of segment data: a source literal and compact or pretty
//! data-interchange text.
use vstd::prelude::*;
use vstd::string::StringExecFns;

verus! {

/// The notation in which segment data is written out.
pub enum OutputFormat {
    /// A Rust struct literal of `NciArray`.
    RustCodegen,
    /// Compact RON.
    RON,
    /// Pretty-printed RON.
    RONPretty,
}

/// How each value is written out.
pub enum ValueFormatting {
    /// With `Display`.
    Display,
    /// With `Debug`.
    Debug,
    /// With alternate `Display` (`{:#}`).
    DisplayAlternate,
    /// With alternate `Debug` (`{:#?}`).
    DebugAlternate,
}

/// How segment data is written out.
pub struct BuildConfiguration {
    pub output_format: OutputFormat,
    pub value_formatting: ValueFormatting,
}

/// The format is compact RON.
pub open spec fn is_compact(format: OutputFormat) -> bool {
    format is RON
}

/// Opens the whole record.
pub open spec fn struct_open(format: OutputFormat) -> Seq<char> {
    if format is RustCodegen {
        "{"@
    } else {
        "("@
    }
}

/// Closes the whole record.
pub open spec fn struct_close(format: OutputFormat) -> Seq<char> {
    if format is RustCodegen {
        "}"@
    } else {
        ")"@
    }
}

/// Opens a list.
pub open spec fn array_open(format: OutputFormat) -> Seq<char> {
    if format is RustCodegen {
        "&["@
    } else {
        "("@
    }
}

/// Closes a list.
pub open spec fn array_close(format: OutputFormat) -> Seq<char> {
    if format is RustCodegen {
        "]"@
    } else {
        ")"@
    }
}

/// Ends a line.
pub open spec fn new_line(format: OutputFormat) -> Seq<char> {
    if is_compact(format) {
        ""@
    } else {
        "\n"@
    }
}

/// One level of indentation.
pub open spec fn indentation(format: OutputFormat) -> Seq<char> {
    if is_compact(format) {
        ""@
    } else {
        "\t"@
    }
}

/// The space after a field name.
pub open spec fn space(format: OutputFormat) -> Seq<char> {
    if is_compact(format) {
        ""@
    } else {
        " "@
    }
}

/// The separator after item `i` of `len` items: compact RON has none after the last.
pub open spec fn item_separator(format: OutputFormat, i: int, len: int) -> Seq<char> {
    if is_compact(format) && i == len - 1 {
        ""@
    } else {
        ","@
    }
}

/// The lines of the first `k` items of a list.
pub open spec fn items_text(format: OutputFormat, items: Seq<Seq<char>>, k: nat) -> Seq<char>
    decreases k,
{
    if k == 0 {
        Seq::empty()
    } else {
        let i = k - 1;
        items_text(format, items, (k - 1) as nat) + indentation(format) + indentation(format)
            + items[i] + item_separator(format, i, items.len() as int) + new_line(format)
    }
}

/// A named list of items; `head` is the field name with its colon, `closing` follows
/// the list's closing bracket.
pub open spec fn list_text(
    format: OutputFormat,
    head: Seq<char>,
    items: Seq<Seq<char>>,
    closing: Seq<char>,
) -> Seq<char> {
    indentation(format) + head + space(format) + array_open(format) + new_line(format) + items_text(
        format,
        items,
        items.len(),
    ) + indentation(format) + array_close(format) + closing + new_line(format)
}

/// The text of segment data: the start keys, storage starts and values, each written
/// as the given item texts.
pub open spec fn segment_data_text(
    format: OutputFormat,
    keys: Seq<Seq<char>>,
    mem: Seq<Seq<char>>,
    values: Seq<Seq<char>>,
) -> Seq<char> {
    struct_open(format) + new_line(format) + list_text(format, "segments_idx_begin:"@, keys, ","@)
        + list_text(format, "segments_mem_idx_begin:"@, mem, ","@) + list_text(
        format,
        "values:"@,
        values,
        if is_compact(format) {
            ""@
        } else {
            ","@
        },
    ) + struct_close(format)
}

/// The characters of each text.
pub open spec fn texts_view(texts: Seq<String>) -> Seq<Seq<char>> {
    texts.map_values(|t: String| t@)
}

/// The decimal digit `d`, for `d < 10`.
pub open spec fn digit_text(d: nat) -> Seq<char> {
    if d == 0 {
        "0"@
    } else if d == 1 {
        "1"@
    } else if d == 2 {
        "2"@
    } else if d == 3 {
        "3"@
    } else if d == 4 {
        "4"@
    } else if d == 5 {
        "5"@
    } else if d == 6 {
        "6"@
    } else if d == 7 {
        "7"@
    } else if d == 8 {
        "8"@
    } else {
        "9"@
    }
}

/// The decimal notation of `n`, without leading zeros.
pub open spec fn decimal(n: nat) -> Seq<char>
    decreases n,
{
    if n < 10 {
        digit_text(n)
    } else {
        decimal(n / 10) + digit_text(n % 10)
    }
}

/// The decimal notation of each number.
pub open spec fn decimals(ns: Seq<usize>) -> Seq<Seq<char>> {
    ns.map_values(|m: usize| decimal(m as nat))
}

/// The decimal digit `d`.
fn digit_str(d: usize) -> (r: &'static str)
    requires
        d < 10,
    ensures
        r@ == digit_text(d as nat),
{
    match d {
        0 => "0",
        1 => "1",
        2 => "2",
        3 => "3",
        4 => "4",
        5 => "5",
        6 => "6",
        7 => "7",
        8 => "8",
        _ => "9",
    }
}

/// Appends the decimal notation of `n` to `out`.
fn write_decimal(out: &mut String, n: usize)
    ensures
        final(out)@ == old(out)@ + decimal(n as nat),
    decreases n,
{
    if n >= 10 {
        write_decimal(out, n / 10);
    }
    out.append(digit_str(n % 10));
    proof {
        assert(out@ =~= old(out)@ + decimal(n as nat));
    }
}

/// The decimal notation of `n`, as `usize`'s `Debug` and `Display` write it.
pub fn decimal_text(n: usize) -> (r: String)
    ensures
        r@ == decimal(n as nat),
{
    let mut out = String::new();
    write_decimal(&mut out, n);
    proof {
        assert(out@ =~= decimal(n as nat));
    }
    out
}

/// Appends a named list of items to `out`.
fn write_list(
    out: &mut String,
    format: &OutputFormat,
    head: &str,
    items: &Vec<String>,
    closing: &str,
)
    ensures
        final(out)@ == old(out)@ + list_text(*format, head@, texts_view(items@), closing@),
{
    let (new_line_str, indentation_str, space_str) = match format {
        OutputFormat::RON => ("", "", ""),
        _ => ("\n", "\t", " "),
    };
    let (array_opening_str, array_closing_str) = match format {
        OutputFormat::RustCodegen => ("&[", "]"),
        _ => ("(", ")"),
    };
    let ghost start = out@;
    let ghost texts = texts_view(items@);
    out.append(indentation_str);
    out.append(head);
    out.append(space_str);
    out.append(array_opening_str);
    out.append(new_line_str);
    let ghost opening = out@;
    let mut i: usize = 0;
    while i < items.len()
        invariant
            i <= items@.len(),
            texts == texts_view(items@),
            new_line_str@ == new_line(*format),
            indentation_str@ == indentation(*format),
            out@ == opening + items_text(*format, texts, i as nat),
        decreases items@.len() - i,
    {
        let comma_str = match format {
            OutputFormat::RON => {
                if i == items.len() - 1 {
                    ""
                } else {
                    ","
                }
            },
            _ => ",",
        };
        out.append(indentation_str);
        out.append(indentation_str);
        out.append(items[i].as_str());
        out.append(comma_str);
        out.append(new_line_str);
        proof {
            assert(items_text(*format, texts, (i + 1) as nat) == items_text(*format, texts, i as nat)
                + indentation(*format) + indentation(*format) + texts[i as int] + item_separator(
                *format,
                i as int,
                texts.len() as int,
            ) + new_line(*format));
            assert(out@ =~= opening + items_text(*format, texts, (i + 1) as nat));
        }
        i = i + 1;
    }
    out.append(indentation_str);
    out.append(array_closing_str);
    out.append(closing);
    out.append(new_line_str);
    proof {
        assert(out@ =~= start + list_text(*format, head@, texts, closing@));
    }
}

/// The text of segment data whose start keys, storage starts and values have already
/// been written as `keys`, `mem` and `values`.
pub fn render_segment_data(
    format: &OutputFormat,
    keys: &Vec<String>,
    mem: &Vec<String>,
    values: &Vec<String>,
) -> (r: String)
    ensures
        r@ == segment_data_text(*format, texts_view(keys@), texts_view(mem@), texts_view(values@)),
{
    let (struct_opening_str, struct_closing_str) = match format {
        OutputFormat::RustCodegen => ("{", "}"),
        _ => ("(", ")"),
    };
    let new_line_str = match format {
        OutputFormat::RON => "",
        _ => "\n",
    };
    let values_closing_str = match format {
        OutputFormat::RON => "",
        _ => ",",
    };
    let mut out = String::new();
    out.append(struct_opening_str);
    out.append(new_line_str);
    write_list(&mut out, format, "segments_idx_begin:", keys, ",");
    write_list(&mut out, format, "segments_mem_idx_begin:", mem, ",");
    write_list(&mut out, format, "values:", values, values_closing_str);
    out.append(struct_closing_str);
    proof {
        assert(out@ =~= segment_data_text(
            *format,
            texts_view(keys@),
            texts_view(mem@),
            texts_view(values@),
        ));
    }
    out
}

} // verus!
