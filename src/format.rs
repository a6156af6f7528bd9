//! Rendering files into annotated text: fences, file-name annotations, line
//! numbers and the XML form.
use vstd::prelude::*;
use crate::paths::{normalize_path, normalized};
use crate::text::{chars_of, lines_of, push_chars, same_chars, split_lines, string_of};

verus! {

/// An error of the copying side.
#[derive(Clone, Debug)]
pub enum ClipboardError {
    IoError(String),
}

/// The comment syntax used to annotate a file of some extension.
#[derive(Clone, Copy, Debug, PartialEq, Eq, Structural)]
pub enum CommentStyle {
    /// `// ...`
    Slash,
    /// `# ...`
    Hash,
    /// `<!-- ... -->`
    Html,
    /// `/* ... */`
    Block,
}

/// The language or format named by a file extension; `unknown` when the
/// extension is not in the table.
pub open spec fn file_type_of(ext: Seq<char>) -> Seq<char> {
    if ext == "rs"@ {
        "rust"@
    } else if ext == "py"@ {
        "python"@
    } else if ext == "js"@ {
        "javascript"@
    } else if ext == "ts"@ {
        "typescript"@
    } else if ext == "tsx"@ {
        "typescript"@
    } else if ext == "java"@ {
        "java"@
    } else if ext == "c"@ {
        "c"@
    } else if ext == "cpp"@ {
        "cpp"@
    } else if ext == "h"@ {
        "header"@
    } else if ext == "cs"@ {
        "csharp"@
    } else if ext == "fs"@ {
        "fsharp"@
    } else if ext == "go"@ {
        "go"@
    } else if ext == "rb"@ {
        "ruby"@
    } else if ext == "php"@ {
        "php"@
    } else if ext == "swift"@ {
        "swift"@
    } else if ext == "kt"@ {
        "kotlin"@
    } else if ext == "kts"@ {
        "kotlin"@
    } else if ext == "r"@ {
        "r"@
    } else if ext == "scala"@ {
        "scala"@
    } else if ext == "lua"@ {
        "lua"@
    } else if ext == "dart"@ {
        "dart"@
    } else if ext == "html"@ {
        "html"@
    } else if ext == "xml"@ {
        "xml"@
    } else if ext == "xhtml"@ {
        "xhtml"@
    } else if ext == "css"@ {
        "css"@
    } else if ext == "scss"@ {
        "scss"@
    } else if ext == "sass"@ {
        "sass"@
    } else if ext == "less"@ {
        "less"@
    } else if ext == "sh"@ {
        "shell"@
    } else if ext == "bash"@ {
        "bash"@
    } else if ext == "zsh"@ {
        "zsh"@
    } else if ext == "toml"@ {
        "toml"@
    } else if ext == "yaml"@ {
        "yaml"@
    } else if ext == "yml"@ {
        "yaml"@
    } else if ext == "json"@ {
        "json"@
    } else if ext == "ini"@ {
        "ini"@
    } else if ext == "conf"@ {
        "conf"@
    } else if ext == "csv"@ {
        "csv"@
    } else if ext == "tsv"@ {
        "tsv"@
    } else if ext == "md"@ {
        "markdown"@
    } else if ext == "rst"@ {
        "reStructuredText"@
    } else if ext == "tex"@ {
        "latex"@
    } else if ext == "bib"@ {
        "bibtex"@
    } else if ext == "sql"@ {
        "sql"@
    } else if ext == "bat"@ {
        "batch"@
    } else if ext == "ps1"@ {
        "powershell"@
    } else if ext == "dockerfile"@ {
        "dockerfile"@
    } else if ext == "bin"@ {
        "binary"@
    } else {
        "unknown"@
    }
}

/// The comment style for an extension; `//` when it is not in the table.
pub open spec fn comment_style_of(ext: Seq<char>) -> CommentStyle {
    if ext == "rs"@ || ext == "js"@ || ext == "ts"@ || ext == "tsx"@ || ext == "java"@ || ext == "c"@ || ext == "cpp"@ || ext == "h"@ || ext == "cs"@ || ext == "fs"@ || ext == "json"@ {
        CommentStyle::Slash
    } else if ext == "py"@ || ext == "toml"@ || ext == "sh"@ || ext == "yml"@ || ext == "yaml"@ {
        CommentStyle::Hash
    } else if ext == "html"@ || ext == "xml"@ {
        CommentStyle::Html
    } else if ext == "css"@ {
        CommentStyle::Block
    } else {
        CommentStyle::Slash
    }
}

/// The first-line annotation `filename: <file>` in the extension's comment style.
pub open spec fn filename_comment(ext: Seq<char>, file: Seq<char>) -> Seq<char> {
    match comment_style_of(ext) {
        CommentStyle::Slash => "// filename: "@ + file + "\n"@,
        CommentStyle::Hash => "# filename: "@ + file + "\n"@,
        CommentStyle::Html => "<!-- filename: "@ + file + " -->\n"@,
        CommentStyle::Block => "/* filename: "@ + file + " */\n"@,
    }
}

/// The text after the last `.`, or the whole text when it holds none.
pub open spec fn after_last_dot(s: Seq<char>) -> Seq<char>
    decreases s.len(),
{
    if s.len() == 0 {
        s
    } else if s.last() == '.' {
        Seq::empty()
    } else {
        after_last_dot(s.drop_last()).push(s.last())
    }
}

/// The decimal digit for `n` below ten.
pub open spec fn digit_char(n: nat) -> char {
    "0123456789"@[n as int]
}

/// The decimal notation of `n`.
pub open spec fn decimal(n: nat) -> Seq<char>
    decreases n,
{
    if n < 10 {
        seq![digit_char(n)]
    } else {
        decimal(n / 10).push(digit_char(n % 10))
    }
}

/// The decimal notation of `n`, padded with zeros on the left to `width`.
pub open spec fn zero_padded(n: nat, width: nat) -> Seq<char> {
    let d = decimal(n);
    if d.len() >= width {
        d
    } else {
        Seq::new((width - d.len()) as nat, |i: int| '0') + d
    }
}

/// What stands before line `i` (counted from 1): its padded number and the
/// prefix when numbering is asked for, else nothing.
pub open spec fn number_tag(i: nat, line_number: Option<usize>, prefix: Seq<char>) -> Seq<char> {
    match line_number {
        Some(w) => zero_padded(i, w as nat) + prefix,
        None => Seq::empty(),
    }
}

/// The lines, each after its number tag and followed by `\n`.
pub open spec fn numbered(ls: Seq<Seq<char>>, line_number: Option<usize>, prefix: Seq<char>) -> Seq<char>
    decreases ls.len(),
{
    if ls.len() == 0 {
        Seq::empty()
    } else {
        numbered(ls.drop_last(), line_number, prefix) + number_tag(ls.len(), line_number, prefix)
            + ls.last() + "\n"@
    }
}

/// The opening fence with the extension as its language tag, unless markdown is off.
pub open spec fn fence_open(no_markdown: bool, ext: Seq<char>) -> Seq<char> {
    if no_markdown {
        Seq::empty()
    } else {
        "```"@ + ext + "\n"@
    }
}

/// What comes before the content for a file-name format.
pub open spec fn format_header(fmt: Seq<char>, no_markdown: bool, file: Seq<char>, ext: Seq<char>) -> Seq<char> {
    if fmt == "None"@ {
        Seq::empty()
    } else if fmt == "MarkdownFirstCodeLine"@ {
        fence_open(no_markdown, ext) + filename_comment(ext, file)
    } else if fmt == "MarkdownHeading"@ {
        "### `"@ + file + "`\n"@ + fence_open(no_markdown, ext)
    } else {
        fence_open(no_markdown, ext)
    }
}

/// A file rendered as markdown (or plain) text.
pub open spec fn formatted(
    content: Seq<char>,
    file: Seq<char>,
    no_markdown: bool,
    line_number: Option<usize>,
    prefix: Seq<char>,
    fmt: Seq<char>,
) -> Seq<char> {
    let f = normalized(file);
    format_header(fmt, no_markdown, f, after_last_dot(f)) + numbered(lines_of(content), line_number, prefix)
        + if no_markdown {
        Seq::<char>::empty()
    } else {
        "```\n"@
    }
}

/// The lines, each wrapped in a numbered `<line>` element.
pub open spec fn xml_lines(ls: Seq<Seq<char>>, width: nat) -> Seq<char>
    decreases ls.len(),
{
    if ls.len() == 0 {
        Seq::empty()
    } else {
        xml_lines(ls.drop_last(), width) + "<line number=\""@ + zero_padded(ls.len(), width) + "\">"@
            + ls.last() + "</line>\n"@
    }
}

/// A file rendered as a `<file>` element.
pub open spec fn xml_formatted(content: Seq<char>, file: Seq<char>, line_number: Option<usize>) -> Seq<char> {
    "<file path=\""@ + normalized(file) + "\" type=\""@ + file_type_of(after_last_dot(file)) + "\">\n"@
        + match line_number {
        Some(w) => xml_lines(lines_of(content), w as nat),
        None => content + "\n"@,
    } + "</file>\n"@
}

/// Whether the characters `e` spell `lit`.
fn is_ext(e: &Vec<char>, lit: &str) -> (r: bool)
    ensures
        r == (e@ == lit@),
{
    let l = chars_of(lit);
    same_chars(e, &l)
}

/// Appends the characters of `s`.
fn push_str(out: &mut Vec<char>, s: &str)
    ensures
        final(out)@ == old(out)@ + s@,
{
    let c = chars_of(s);
    push_chars(out, &c);
}

/// The language or format named by a file extension, as `file_type_of` states.
pub fn get_file_type(ext: &str) -> (r: Result<&'static str, ClipboardError>)
    ensures
        r matches Ok(t) && t@ == file_type_of(ext@),
{
    let e = chars_of(ext);
    if is_ext(&e, "rs") {
        return Ok("rust");
    }
    if is_ext(&e, "py") {
        return Ok("python");
    }
    if is_ext(&e, "js") {
        return Ok("javascript");
    }
    if is_ext(&e, "ts") {
        return Ok("typescript");
    }
    if is_ext(&e, "tsx") {
        return Ok("typescript");
    }
    if is_ext(&e, "java") {
        return Ok("java");
    }
    if is_ext(&e, "c") {
        return Ok("c");
    }
    if is_ext(&e, "cpp") {
        return Ok("cpp");
    }
    if is_ext(&e, "h") {
        return Ok("header");
    }
    if is_ext(&e, "cs") {
        return Ok("csharp");
    }
    if is_ext(&e, "fs") {
        return Ok("fsharp");
    }
    if is_ext(&e, "go") {
        return Ok("go");
    }
    if is_ext(&e, "rb") {
        return Ok("ruby");
    }
    if is_ext(&e, "php") {
        return Ok("php");
    }
    if is_ext(&e, "swift") {
        return Ok("swift");
    }
    if is_ext(&e, "kt") {
        return Ok("kotlin");
    }
    if is_ext(&e, "kts") {
        return Ok("kotlin");
    }
    if is_ext(&e, "r") {
        return Ok("r");
    }
    if is_ext(&e, "scala") {
        return Ok("scala");
    }
    if is_ext(&e, "lua") {
        return Ok("lua");
    }
    if is_ext(&e, "dart") {
        return Ok("dart");
    }
    if is_ext(&e, "html") {
        return Ok("html");
    }
    if is_ext(&e, "xml") {
        return Ok("xml");
    }
    if is_ext(&e, "xhtml") {
        return Ok("xhtml");
    }
    if is_ext(&e, "css") {
        return Ok("css");
    }
    if is_ext(&e, "scss") {
        return Ok("scss");
    }
    if is_ext(&e, "sass") {
        return Ok("sass");
    }
    if is_ext(&e, "less") {
        return Ok("less");
    }
    if is_ext(&e, "sh") {
        return Ok("shell");
    }
    if is_ext(&e, "bash") {
        return Ok("bash");
    }
    if is_ext(&e, "zsh") {
        return Ok("zsh");
    }
    if is_ext(&e, "toml") {
        return Ok("toml");
    }
    if is_ext(&e, "yaml") {
        return Ok("yaml");
    }
    if is_ext(&e, "yml") {
        return Ok("yaml");
    }
    if is_ext(&e, "json") {
        return Ok("json");
    }
    if is_ext(&e, "ini") {
        return Ok("ini");
    }
    if is_ext(&e, "conf") {
        return Ok("conf");
    }
    if is_ext(&e, "csv") {
        return Ok("csv");
    }
    if is_ext(&e, "tsv") {
        return Ok("tsv");
    }
    if is_ext(&e, "md") {
        return Ok("markdown");
    }
    if is_ext(&e, "rst") {
        return Ok("reStructuredText");
    }
    if is_ext(&e, "tex") {
        return Ok("latex");
    }
    if is_ext(&e, "bib") {
        return Ok("bibtex");
    }
    if is_ext(&e, "sql") {
        return Ok("sql");
    }
    if is_ext(&e, "bat") {
        return Ok("batch");
    }
    if is_ext(&e, "ps1") {
        return Ok("powershell");
    }
    if is_ext(&e, "dockerfile") {
        return Ok("dockerfile");
    }
    if is_ext(&e, "bin") {
        return Ok("binary");
    }
    Ok("unknown")
}

/// The comment style for an extension, as `comment_style_of` states.
fn comment_style(ext: &Vec<char>) -> (r: CommentStyle)
    ensures
        r == comment_style_of(ext@),
{
    if is_ext(ext, "rs") || is_ext(ext, "js") || is_ext(ext, "ts") || is_ext(ext, "tsx") || is_ext(ext, "java") || is_ext(ext, "c") || is_ext(ext, "cpp") || is_ext(ext, "h") || is_ext(ext, "cs") || is_ext(ext, "fs") || is_ext(ext, "json") {
        CommentStyle::Slash
    } else if is_ext(ext, "py") || is_ext(ext, "toml") || is_ext(ext, "sh") || is_ext(ext, "yml") || is_ext(ext, "yaml") {
        CommentStyle::Hash
    } else if is_ext(ext, "html") || is_ext(ext, "xml") {
        CommentStyle::Html
    } else if is_ext(ext, "css") {
        CommentStyle::Block
    } else {
        CommentStyle::Slash
    }
}

/// The first-line annotation for a file, as `filename_comment` states.
pub fn get_filename_comment(ext: &str, filename: &str) -> (r: String)
    ensures
        r@ == filename_comment(ext@, filename@),
{
    let e = chars_of(ext);
    let mut out: Vec<char> = Vec::new();
    match comment_style(&e) {
        CommentStyle::Slash => {
            push_str(&mut out, "// filename: ");
            push_str(&mut out, filename);
            push_str(&mut out, "\n");
        },
        CommentStyle::Hash => {
            push_str(&mut out, "# filename: ");
            push_str(&mut out, filename);
            push_str(&mut out, "\n");
        },
        CommentStyle::Html => {
            push_str(&mut out, "<!-- filename: ");
            push_str(&mut out, filename);
            push_str(&mut out, " -->\n");
        },
        CommentStyle::Block => {
            push_str(&mut out, "/* filename: ");
            push_str(&mut out, filename);
            push_str(&mut out, " */\n");
        },
    }
    string_of(&out)
}

/// The text after the last `.`, as `after_last_dot` states.
fn extension_of(s: &Vec<char>) -> (r: Vec<char>)
    ensures
        r@ == after_last_dot(s@),
{
    let mut k: usize = s.len();
    assert(s@.subrange(0, s@.len() as int) =~= s@);
    assert(after_last_dot(s@) + s@.subrange(k as int, s@.len() as int) =~= after_last_dot(s@));
    while k > 0 && s[k - 1] != '.'
        invariant
            k <= s@.len(),
            after_last_dot(s@) == after_last_dot(s@.subrange(0, k as int)) + s@.subrange(k as int, s@.len() as int),
        decreases k,
    {
        let ghost pre = s@.subrange(0, k as int);
        assert(pre.drop_last() =~= s@.subrange(0, k - 1));
        assert(s@.subrange(k - 1, s@.len() as int) =~= seq![pre.last()] + s@.subrange(k as int, s@.len() as int));
        k -= 1;
    }
    if k > 0 {
        assert(s@.subrange(0, k as int).last() == '.');
    }
    slice_from(s, k)
}

/// The characters of `s` from `k` on.
fn slice_from(s: &Vec<char>, k: usize) -> (r: Vec<char>)
    requires
        k <= s@.len(),
    ensures
        r@ == s@.subrange(k as int, s@.len() as int),
{
    crate::text::slice_chars(s, k, s.len())
}

/// Appends the decimal notation of `n`.
fn push_decimal(out: &mut Vec<char>, n: usize)
    ensures
        final(out)@ == old(out)@ + decimal(n as nat),
    decreases n,
{
    let digits = chars_of("0123456789");
    proof {
        reveal_strlit("0123456789");
    }
    if n < 10 {
        out.push(digits[n]);
        assert(decimal(n as nat) =~= seq![digit_char(n as nat)]);
    } else {
        push_decimal(out, n / 10);
        out.push(digits[n % 10]);
        assert(decimal(n as nat) =~= decimal((n / 10) as nat).push(digit_char((n % 10) as nat)));
    }
}

/// Appends `n` zero-padded to `width`, as `zero_padded` states.
fn push_padded(out: &mut Vec<char>, n: usize, width: usize)
    ensures
        final(out)@ == old(out)@ + zero_padded(n as nat, width as nat),
{
    let mut d: Vec<char> = Vec::new();
    push_decimal(&mut d, n);
    assert(d@ =~= decimal(n as nat));
    if d.len() < width {
        let pad = width - d.len();
        let mut k: usize = 0;
        while k < pad
            invariant
                k <= pad,
                out@ == old(out)@ + Seq::new(k as nat, |i: int| '0'),
            decreases pad - k,
        {
            out.push('0');
            assert(out@ =~= old(out)@ + Seq::new((k + 1) as nat, |i: int| '0'));
            k += 1;
        }
        push_chars(out, &d);
        assert(out@ =~= old(out)@ + zero_padded(n as nat, width as nat));
    } else {
        push_chars(out, &d);
    }
}

/// The lines of `content`, each after its number tag, as `numbered` states.
pub fn get_line_numbered_content(content: &str, line_number: Option<usize>, prefix: &str) -> (r: String)
    ensures
        r@ == numbered(lines_of(content@), line_number, prefix@),
{
    let c = chars_of(content);
    let ls = split_lines(&c);
    let ghost l = lines_of(content@);
    let mut out: Vec<char> = Vec::new();
    let mut k: usize = 0;
    while k < ls.len()
        invariant
            k <= ls@.len(),
            l == crate::text::lines_view(ls@),
            out@ == numbered(l.subrange(0, k as int), line_number, prefix@),
        decreases ls@.len() - k,
    {
        let ghost before = out@;
        assert(l.subrange(0, k + 1).drop_last() =~= l.subrange(0, k as int));
        assert(l.subrange(0, k + 1).last() == ls@[k as int]@);
        match line_number {
            Some(w) => {
                push_padded(&mut out, k + 1, w);
                push_str(&mut out, prefix);
            },
            None => {},
        }
        push_chars(&mut out, &ls[k]);
        push_str(&mut out, "\n");
        assert(out@ =~= before + number_tag((k + 1) as nat, line_number, prefix@) + ls@[k as int]@ + "\n"@);
        k += 1;
    }
    assert(l.subrange(0, k as int) =~= l);
    string_of(&out)
}

/// The numbered `<line>` elements of `content`, as `xml_lines` states.
fn push_xml_lines(out: &mut Vec<char>, content: &str, width: usize)
    ensures
        final(out)@ == old(out)@ + xml_lines(lines_of(content@), width as nat),
{
    let c = chars_of(content);
    let ls = split_lines(&c);
    let ghost l = lines_of(content@);
    let mut k: usize = 0;
    while k < ls.len()
        invariant
            k <= ls@.len(),
            l == crate::text::lines_view(ls@),
            out@ == old(out)@ + xml_lines(l.subrange(0, k as int), width as nat),
        decreases ls@.len() - k,
    {
        let ghost before = out@;
        assert(l.subrange(0, k + 1).drop_last() =~= l.subrange(0, k as int));
        assert(l.subrange(0, k + 1).last() == ls@[k as int]@);
        push_str(out, "<line number=\"");
        push_padded(out, k + 1, width);
        push_str(out, "\">");
        push_chars(out, &ls[k]);
        push_str(out, "</line>\n");
        assert(out@ =~= before + "<line number=\""@ + zero_padded((k + 1) as nat, width as nat) + "\">"@
            + ls@[k as int]@ + "</line>\n"@);
        k += 1;
    }
    assert(l.subrange(0, k as int) =~= l);
}

/// A file rendered as a `<file>` element, as `xml_formatted` states.
pub fn format_xml_content(content: &str, file: &str, line_number: Option<usize>) -> (r: Result<String, ClipboardError>)
    ensures
        r matches Ok(s) && s@ == xml_formatted(content@, file@, line_number),
{
    let path = normalize_path(file);
    let fc = chars_of(file);
    let ext = extension_of(&fc);
    let ext_s = string_of(&ext);
    let file_type = match get_file_type(ext_s.as_str()) {
        Ok(t) => t,
        Err(e) => return Err(e),
    };
    let mut out: Vec<char> = Vec::new();
    push_str(&mut out, "<file path=\"");
    push_str(&mut out, path.as_str());
    push_str(&mut out, "\" type=\"");
    push_str(&mut out, file_type);
    push_str(&mut out, "\">\n");
    let ghost head = out@;
    match line_number {
        Some(w) => push_xml_lines(&mut out, content, w),
        None => {
            push_str(&mut out, content);
            push_str(&mut out, "\n");
        },
    }
    push_str(&mut out, "</file>\n");
    assert(out@ =~= xml_formatted(content@, file@, line_number));
    Ok(string_of(&out))
}

/// A file rendered as annotated text: XML when `xml` holds, else as
/// `formatted` states.
pub fn format_content(
    content: &str,
    file: &str,
    no_markdown: bool,
    line_number: Option<usize>,
    prefix: &str,
    filename_format: String,
    xml: bool,
) -> (r: Result<String, ClipboardError>)
    ensures
        xml ==> (r matches Ok(s) && s@ == xml_formatted(content@, file@, line_number)),
        !xml ==> (r matches Ok(s) && s@ == formatted(
            content@,
            file@,
            no_markdown,
            line_number,
            prefix@,
            filename_format@,
        )),
{
    if xml {
        return format_xml_content(content, file, line_number);
    }
    let f = normalize_path(file);
    let fc = chars_of(f.as_str());
    let ext = extension_of(&fc);
    let ext_s = string_of(&ext);
    let fmt = chars_of(filename_format.as_str());
    let mut out: Vec<char> = Vec::new();
    if is_ext(&fmt, "None") {
    } else if is_ext(&fmt, "MarkdownFirstCodeLine") {
        if !no_markdown {
            push_str(&mut out, "```");
            push_chars(&mut out, &ext);
            push_str(&mut out, "\n");
        }
        let comment = get_filename_comment(ext_s.as_str(), f.as_str());
        push_str(&mut out, comment.as_str());
    } else if is_ext(&fmt, "MarkdownHeading") {
        push_str(&mut out, "### `");
        push_str(&mut out, f.as_str());
        push_str(&mut out, "`\n");
        if !no_markdown {
            push_str(&mut out, "```");
            push_chars(&mut out, &ext);
            push_str(&mut out, "\n");
        }
    } else {
        if !no_markdown {
            push_str(&mut out, "```");
            push_chars(&mut out, &ext);
            push_str(&mut out, "\n");
        }
    }
    let ghost normalized_file = normalized(file@);
    assert(out@ =~= format_header(filename_format@, no_markdown, normalized_file, after_last_dot(normalized_file)));
    let body = get_line_numbered_content(content, line_number, prefix);
    push_str(&mut out, body.as_str());
    if !no_markdown {
        push_str(&mut out, "```\n");
    }
    assert(out@ =~= formatted(content@, file@, no_markdown, line_number, prefix@, filename_format@));
    Ok(string_of(&out))
}

} // verus!
