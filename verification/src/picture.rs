//! Pictures in SVG, element by element.
use crate::numbers::push_signed;
use vstd::prelude::*;
use vstd::string::*;

verus! {

/// A character as it stands in a picture's text.
pub open spec fn escaped_char(c: char) -> Seq<char> {
    if c == '&' {
        "&amp;"@
    } else if c == '<' {
        "&lt;"@
    } else if c == '>' {
        "&gt;"@
    } else {
        seq![c]
    }
}

/// A text as it stands in a picture.
pub open spec fn escaped(text: Seq<char>) -> Seq<char>
    decreases text.len(),
{
    if text.len() == 0 {
        Seq::empty()
    } else {
        escaped(text.drop_last()) + escaped_char(text.last())
    }
}

/// No text in a picture is taken for markup: neither `<` nor `>` is left in it.
pub proof fn escaping_leaves_no_markup(text: Seq<char>)
    ensures
        !escaped(text).contains('<'),
        !escaped(text).contains('>'),
    decreases text.len(),
{
    reveal_strlit("&amp;");
    reveal_strlit("&lt;");
    reveal_strlit("&gt;");
    if text.len() > 0 {
        escaping_leaves_no_markup(text.drop_last());
        let head = escaped(text.drop_last());
        let tail = escaped_char(text.last());
        assert forall|i: int| 0 <= i < (head + tail).len() implies (head + tail)[i] != '<' && (head
            + tail)[i] != '>' by {
            if i < head.len() {
                assert((head + tail)[i] == head[i]);
                assert(head.contains(head[i]));
            } else {
                assert((head + tail)[i] == tail[i - head.len()]);
            }
        }
    }
}

/// Escapes a text for a picture.
pub fn escape(text: &str) -> (out: String)
    ensures
        out@ == escaped(text@),
{
    let len: usize = text.unicode_len();
    let mut out = String::new();
    let mut i: usize = 0;
    assert(text@.take(0) =~= Seq::empty());
    while i < len
        invariant
            i <= len,
            len == text@.len(),
            out@ == escaped(text@.take(i as int)),
        decreases len - i,
    {
        let c: char = text.get_char(i);
        assert(text@.take(i + 1).drop_last() =~= text@.take(i as int));
        if c == '&' {
            out.append("&amp;");
        } else if c == '<' {
            out.append("&lt;");
        } else if c == '>' {
            out.append("&gt;");
        } else {
            let one = text.substring_char(i, i + 1);
            assert(one@ =~= seq![c]);
            out.append(one);
        }
        i = i + 1;
    }
    assert(text@.take(len as int) =~= text@);
    out
}

/// A line of text in a picture.
pub open spec fn label_text(
    x: int,
    y: int,
    fill: Seq<char>,
    size: int,
    bold: bool,
    body: Seq<char>,
) -> Seq<char> {
    let open = "<text x=\""@ + crate::numbers::signed(x) + "\" y=\""@ + crate::numbers::signed(y)
        + "\" fill=\""@ + fill
        + "\" font-family=\"ui-monospace, SFMono-Regular, Menlo, monospace\" font-size=\""@
        + crate::numbers::signed(size);
    let weight = if bold {
        open + "\" font-weight=\"700\">"@
    } else {
        open + "\">"@
    };
    weight + body + "</text>\n"@
}

/// A line of text in a picture.
pub fn label(x: i64, y: i64, fill: &str, size: i64, bold: bool, body: &str) -> (text: String)
    ensures
        text@ == label_text(x as int, y as int, fill@, size as int, bold, body@),
{
    let mut text = String::from_str("<text x=\"");
    push_signed(&mut text, x);
    text.append("\" y=\"");
    push_signed(&mut text, y);
    text.append("\" fill=\"");
    text.append(fill);
    text.append("\" font-family=\"ui-monospace, SFMono-Regular, Menlo, monospace\" font-size=\"");
    push_signed(&mut text, size);
    if bold {
        text.append("\" font-weight=\"700\">");
    } else {
        text.append("\">");
    }
    text.append(body);
    text.append("</text>\n");
    text
}

/// A box in a picture.
pub open spec fn box_text(
    x: int,
    y: int,
    width: int,
    height: int,
    radius: int,
    fill: Seq<char>,
    framed: bool,
) -> Seq<char> {
    let open = "<rect x=\""@ + crate::numbers::signed(x) + "\" y=\""@ + crate::numbers::signed(y)
        + "\" width=\""@ + crate::numbers::signed(width) + "\" height=\""@
        + crate::numbers::signed(height) + "\" rx=\""@ + crate::numbers::signed(radius)
        + "\" fill=\""@ + fill;
    if framed {
        open + "\" stroke=\"#30363d\"/>\n"@
    } else {
        open + "\"/>\n"@
    }
}

/// A box in a picture.
pub fn rounded_box(
    x: i64,
    y: i64,
    width: i64,
    height: i64,
    radius: i64,
    fill: &str,
    framed: bool,
) -> (text: String)
    ensures
        text@ == box_text(
            x as int,
            y as int,
            width as int,
            height as int,
            radius as int,
            fill@,
            framed,
        ),
{
    let mut text = String::from_str("<rect x=\"");
    push_signed(&mut text, x);
    text.append("\" y=\"");
    push_signed(&mut text, y);
    text.append("\" width=\"");
    push_signed(&mut text, width);
    text.append("\" height=\"");
    push_signed(&mut text, height);
    text.append("\" rx=\"");
    push_signed(&mut text, radius);
    text.append("\" fill=\"");
    text.append(fill);
    if framed {
        text.append("\" stroke=\"#30363d\"/>\n");
    } else {
        text.append("\"/>\n");
    }
    text
}

/// The start of a picture.
pub open spec fn canvas_text(width: int, height: int) -> Seq<char> {
    "<svg xmlns=\"http://www.w3.org/2000/svg\" width=\""@ + crate::numbers::signed(width)
        + "\" height=\""@ + crate::numbers::signed(height) + "\" viewBox=\"0 0 "@
        + crate::numbers::signed(width) + " "@ + crate::numbers::signed(height) + "\">\n"@
}

/// The start of a picture.
pub fn canvas(width: i64, height: i64) -> (text: String)
    ensures
        text@ == canvas_text(width as int, height as int),
{
    let mut text = String::from_str("<svg xmlns=\"http://www.w3.org/2000/svg\" width=\"");
    push_signed(&mut text, width);
    text.append("\" height=\"");
    push_signed(&mut text, height);
    text.append("\" viewBox=\"0 0 ");
    push_signed(&mut text, width);
    text.append(" ");
    push_signed(&mut text, height);
    text.append("\">\n");
    text
}

/// The start of a picture with a frame and a title.
pub open spec fn shell_text(width: int, height: int, title: Seq<char>) -> Seq<char> {
    canvas_text(width, height)
        + "<rect width=\"100%\" height=\"100%\" rx=\"18\" fill=\"#0f1115\"/>\n"@ + box_text(
        18,
        18,
        width - 36,
        height - 36,
        14,
        "#11161d"@,
        true,
    ) + label_text(36, 48, "#e6e1d9"@, 20, true, escaped(title))
}

/// The start of a picture with a frame and a title.
pub fn svg_shell(width: i32, height: i32, title: &str) -> (svg: String)
    requires
        width >= i32::MIN + 36,
        height >= i32::MIN + 36,
    ensures
        svg@ == shell_text(width as int, height as int, title@),
{
    let mut svg = canvas(width as i64, height as i64);
    svg.append("<rect width=\"100%\" height=\"100%\" rx=\"18\" fill=\"#0f1115\"/>\n");
    svg.append(
        rounded_box(18, 18, width as i64 - 36, height as i64 - 36, 14, "#11161d", true).as_str(),
    );
    svg.append(label(36, 48, "#e6e1d9", 20, true, escape(title).as_str()).as_str());
    svg
}

/// A finished picture.
pub open spec fn finished(svg: Seq<char>) -> Seq<char> {
    svg + "</svg>\n"@
}

/// Finishes a picture.
pub fn finish_svg(svg: String) -> (picture: String)
    ensures
        picture@ == finished(svg@),
{
    let mut picture = svg;
    picture.append("</svg>\n");
    picture
}

/// Half of an integer, rounded towards zero.
pub open spec fn half(n: int) -> int {
    if n >= 0 {
        n / 2
    } else {
        -((-n) / 2)
    }
}

fn halved(n: i64) -> (m: i64)
    requires
        n > i64::MIN,
    ensures
        m == half(n as int),
{
    if n >= 0 {
        n / 2
    } else {
        -((-n) / 2)
    }
}

/// An arrow, with a caption above its middle where one is given.
pub open spec fn arrow_text(
    x1: int,
    y1: int,
    x2: int,
    y2: int,
    marker: Seq<char>,
    shift: int,
    caption: Seq<char>,
) -> Seq<char> {
    let line = "<line x1=\""@ + crate::numbers::signed(x1) + "\" y1=\""@ + crate::numbers::signed(
        y1,
    ) + "\" x2=\""@ + crate::numbers::signed(x2) + "\" y2=\""@ + crate::numbers::signed(y2)
        + "\" stroke=\"#58a6ff\" stroke-width=\"2\" marker-end=\"url(#"@ + marker + ")\"/>\n"@;
    if caption.len() == 0 {
        line
    } else {
        line + label_text(
            half(x1 + x2) - shift,
            half(y1 + y2) - 8,
            "#8b949e"@,
            11,
            false,
            escaped(caption),
        )
    }
}

/// An arrow with a caption.
fn arrow(
    x1: i32,
    y1: i32,
    x2: i32,
    y2: i32,
    marker: &str,
    shift: i64,
    caption: &str,
) -> (text: String)
    requires
        0 <= shift <= 100,
    ensures
        text@ == arrow_text(
            x1 as int,
            y1 as int,
            x2 as int,
            y2 as int,
            marker@,
            shift as int,
            caption@,
        ),
{
    let mut text = String::from_str("<line x1=\"");
    push_signed(&mut text, x1 as i64);
    text.append("\" y1=\"");
    push_signed(&mut text, y1 as i64);
    text.append("\" x2=\"");
    push_signed(&mut text, x2 as i64);
    text.append("\" y2=\"");
    push_signed(&mut text, y2 as i64);
    text.append("\" stroke=\"#58a6ff\" stroke-width=\"2\" marker-end=\"url(#");
    text.append(marker);
    text.append(")\"/>\n");
    if !caption.is_empty() {
        text.append(
            label(
                halved(x1 as i64 + x2 as i64) - shift,
                halved(y1 as i64 + y2 as i64) - 8,
                "#8b949e",
                11,
                false,
                escape(caption).as_str(),
            ).as_str(),
        );
    }
    text
}

/// Draws an arrow between the boxes of the storage picture.
pub fn draw_arrow(svg: &mut String, x1: i32, y1: i32, x2: i32, y2: i32, caption: &str)
    ensures
        final(svg)@ == old(svg)@ + arrow_text(
            x1 as int,
            y1 as int,
            x2 as int,
            y2 as int,
            "arrow"@,
            18,
            caption@,
        ),
{
    svg.append(arrow(x1, y1, x2, y2, "arrow", 18, caption).as_str());
}

/// Draws an arrow between the boxes of the observability picture.
pub fn draw_obs_arrow(svg: &mut String, x1: i32, y1: i32, x2: i32, y2: i32, caption: &str)
    ensures
        final(svg)@ == old(svg)@ + arrow_text(
            x1 as int,
            y1 as int,
            x2 as int,
            y2 as int,
            "obs-arrow"@,
            22,
            caption@,
        ),
{
    svg.append(arrow(x1, y1, x2, y2, "obs-arrow", 22, caption).as_str());
}

} // verus!
