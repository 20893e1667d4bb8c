use vstd::prelude::*;
use colored::Colorize;

verus! {

/// How serious a diagnostic is.
#[derive(Debug, PartialEq, Eq, Clone, Copy, Structural)]
pub enum Severity {
    Error,
    Warning,
    Help,
}

/// An error kind of one of the compiler phases: it has a numeric code and a
/// fixed message.
pub trait XynError: Sized {
    spec fn code_spec(&self) -> usize;

    spec fn message_spec(&self) -> Seq<char>;

    fn to_usize(self) -> (r: usize)
        ensures
            r == self.code_spec(),
    ;

    fn message(&self) -> (r: &'static str)
        ensures
            r@ == self.message_spec(),
    ;
}

/// The mathematical content of a diagnostic.
pub struct DiagnosticView {
    pub severity: Severity,
    pub message: Seq<char>,
    pub error_code: Option<usize>,
    pub preview: Option<Seq<char>>,
}

/// The diagnostic that an error kind turns into.
pub open spec fn error_view<T: XynError>(e: T) -> DiagnosticView {
    DiagnosticView {
        severity: Severity::Error,
        message: e.message_spec(),
        error_code: Some(e.code_spec()),
        preview: None,
    }
}


/// The decimal digit character of `d`, for `d < 10`.
pub open spec fn digit_char(d: nat) -> char {
    if d == 0 { '0' }
    else if d == 1 { '1' }
    else if d == 2 { '2' }
    else if d == 3 { '3' }
    else if d == 4 { '4' }
    else if d == 5 { '5' }
    else if d == 6 { '6' }
    else if d == 7 { '7' }
    else if d == 8 { '8' }
    else { '9' }
}

/// The decimal notation of `n`, without leading zeros.
pub open spec fn decimal(n: nat) -> Seq<char>
    decreases n,
{
    if n < 10 {
        seq![digit_char(n)]
    } else {
        decimal(n / 10).push(digit_char(n % 10))
    }
}

/// `s` with zeros in front, up to `width` characters.
pub open spec fn zero_padded(s: Seq<char>, width: nat) -> Seq<char> {
    if s.len() >= width {
        s
    } else {
        Seq::new((width - s.len()) as nat, |i: int| '0') + s
    }
}

/// The label in front of a rendered diagnostic, before any colouring.
pub open spec fn label_text(d: DiagnosticView) -> Seq<char> {
    match d.severity {
        Severity::Error => match d.error_code {
            Some(c) => "error[E-"@ + zero_padded(decimal(c as nat), 4) + "]"@,
            None => "error"@,
        },
        Severity::Warning => "warning"@,
        Severity::Help => "help"@,
    }
}

/// What the terminal style `code` makes of `text`: either `text` itself, when
/// colours are off, or `text` between the sequence `ESC [ code m` and the
/// reset sequence `ESC [ 0 m`.
pub open spec fn styled(text: Seq<char>, code: Seq<char>, out: Seq<char>) -> bool {
    ||| out == text
    ||| out == seq!['\x1B', '['] + code + seq!['m'] + text + seq!['\x1B', '[', '0', 'm']
}

/// The style code of bold red.
pub open spec fn bold_red() -> Seq<char> {
    seq!['1', ';', '3', '1']
}

/// The style code of bold yellow.
pub open spec fn bold_yellow() -> Seq<char> {
    seq!['1', ';', '3', '3']
}

/// The style code of bold.
pub open spec fn bold() -> Seq<char> {
    seq!['1']
}

/// Whether `text` holds no escape character.
pub open spec fn no_escape(text: Seq<char>) -> bool {
    forall|i: int| 0 <= i < text.len() ==> text[i] != '\x1B'
}

/// `colored`'s `red` and `bold` on `text`, displayed through `ColoredString`'s
/// `Display`. The crate writes `text` unchanged when colours are off (from the
/// environment or an override), and otherwise between the style sequence
/// `ESC[1;31m` (the style, bold `1`, then the foreground colour, red `31`)
/// and the reset sequence `ESC[0m`; reset sequences inside `text` would be
/// repeated, so the claim is made for text without escape characters only.
#[verifier::external_body]
fn paint_bold_red(text: &str) -> (r: String)
    ensures
        no_escape(text@) ==> styled(text@, bold_red(), r@),
{
    text.red().bold().to_string()
}

/// `colored`'s `yellow` and `bold` on `text`, displayed; the same claim as for
/// `paint_bold_red`, with the style sequence `ESC[1;33m` (yellow is `33`).
#[verifier::external_body]
fn paint_bold_yellow(text: &str) -> (r: String)
    ensures
        no_escape(text@) ==> styled(text@, bold_yellow(), r@),
{
    text.yellow().bold().to_string()
}

/// `colored`'s `bold` on `text`, displayed; the same claim as for
/// `paint_bold_red`, with the style sequence `ESC[1m` (no colour).
#[verifier::external_body]
fn paint_bold(text: &str) -> (r: String)
    ensures
        no_escape(text@) ==> styled(text@, bold(), r@),
{
    text.bold().to_string()
}

fn digit_str(d: usize) -> (r: &'static str)
    requires
        d < 10,
    ensures
        r@ == seq![digit_char(d as nat)],
{
    if d == 0 {
        proof { reveal_strlit("0"); }
        "0"
    } else if d == 1 {
        proof { reveal_strlit("1"); }
        "1"
    } else if d == 2 {
        proof { reveal_strlit("2"); }
        "2"
    } else if d == 3 {
        proof { reveal_strlit("3"); }
        "3"
    } else if d == 4 {
        proof { reveal_strlit("4"); }
        "4"
    } else if d == 5 {
        proof { reveal_strlit("5"); }
        "5"
    } else if d == 6 {
        proof { reveal_strlit("6"); }
        "6"
    } else if d == 7 {
        proof { reveal_strlit("7"); }
        "7"
    } else if d == 8 {
        proof { reveal_strlit("8"); }
        "8"
    } else {
        proof { reveal_strlit("9"); }
        "9"
    }
}

/// The decimal notation of `n`.
pub fn decimal_string(n: usize) -> (r: String)
    ensures
        r@ == decimal(n as nat),
    decreases n,
{
    if n < 10 {
        String::from_str(digit_str(n))
    } else {
        let mut s = decimal_string(n / 10);
        s.append(digit_str(n % 10));
        s
    }
}

proof fn lemma_decimal_len(n: nat)
    ensures
        n < 10 ==> decimal(n).len() == 1,
        10 <= n < 100 ==> decimal(n).len() == 2,
        100 <= n < 1000 ==> decimal(n).len() == 3,
        1000 <= n ==> decimal(n).len() >= 4,
    decreases n,
{
    if n >= 10 {
        lemma_decimal_len(n / 10);
    }
}

/// The decimal notation of `n` with zeros in front, four digits at least.
pub fn format_code(n: usize) -> (r: String)
    ensures
        r@ == zero_padded(decimal(n as nat), 4),
{
    proof {
        lemma_decimal_len(n as nat);
        reveal_strlit("000");
        reveal_strlit("00");
        reveal_strlit("0");
    }
    let digits = decimal_string(n);
    let mut out = if n < 10 {
        String::from_str("000")
    } else if n < 100 {
        String::from_str("00")
    } else if n < 1000 {
        String::from_str("0")
    } else {
        String::new()
    };
    let ghost pad = out@;
    out.append(digits.as_str());
    assert(out@ =~= zero_padded(decimal(n as nat), 4));
    out
}


proof fn lemma_decimal_digits(n: nat)
    ensures
        forall|i: int| 0 <= i < decimal(n).len() ==> '0' <= #[trigger] decimal(n)[i] <= '9',
    decreases n,
{
    if n >= 10 {
        lemma_decimal_digits(n / 10);
        let p = decimal(n / 10);
        assert forall|i: int| 0 <= i < decimal(n).len() implies '0' <= #[trigger] decimal(n)[i] <= '9' by {
            if i < p.len() {
                assert(decimal(n)[i] == p[i]);
            }
        }
    }
}

proof fn lemma_label_no_escape(d: DiagnosticView)
    ensures
        no_escape(label_text(d)),
{
    reveal_strlit("error[E-");
    reveal_strlit("]");
    reveal_strlit("error");
    reveal_strlit("warning");
    reveal_strlit("help");
    if let Some(c) = d.error_code {
        lemma_decimal_digits(c as nat);
        let z = zero_padded(decimal(c as nat), 4);
        assert forall|i: int| 0 <= i < z.len() implies '0' <= #[trigger] z[i] <= '9' by {
            if decimal(c as nat).len() < 4 {
                let k = 4 - decimal(c as nat).len();
                if i >= k {
                    assert(z[i] == decimal(c as nat)[i - k]);
                }
            }
        }
    }
}

#[derive(Debug, PartialEq)]
pub struct Diagnostic {
    severity: Severity,
    message: String,
    error_code: Option<usize>,
    preview: Option<String>,
}

pub open spec fn opt_string_view(o: Option<String>) -> Option<Seq<char>> {
    match o {
        Some(s) => Some(s@),
        None => None,
    }
}

impl View for Diagnostic {
    type V = DiagnosticView;

    closed spec fn view(&self) -> DiagnosticView {
        DiagnosticView {
            severity: self.severity,
            message: self.message@,
            error_code: self.error_code,
            preview: opt_string_view(self.preview),
        }
    }
}

/// The view of an empty error diagnostic.
pub open spec fn empty_view() -> DiagnosticView {
    DiagnosticView { severity: Severity::Error, message: Seq::empty(), error_code: None, preview: None }
}

impl Default for Diagnostic {
    fn default() -> (r: Self)
        ensures
            r@ == empty_view(),
    {
        Diagnostic { severity: Severity::Error, message: String::new(), error_code: None, preview: None }
    }
}

impl Diagnostic {
    pub fn severity(&self) -> (r: Severity)
        ensures
            r == self@.severity,
    {
        self.severity
    }

    pub fn error_code(&self) -> (r: Option<usize>)
        ensures
            r == self@.error_code,
    {
        self.error_code
    }

    /// The diagnostic's label, such as `error[E-1002]`, before colouring.
    pub fn label(&self) -> (r: String)
        ensures
            r@ == label_text(self@),
    {
        proof {
            reveal_strlit("error[E-");
            reveal_strlit("]");
            reveal_strlit("error");
            reveal_strlit("warning");
            reveal_strlit("help");
        }
        match self.severity {
            Severity::Error => match self.error_code {
                Some(code) => {
                    let mut text = String::from_str("error[E-");
                    let digits = format_code(code);
                    text.append(digits.as_str());
                    text.append("]");
                    text
                },
                None => String::from_str("error"),
            },
            Severity::Warning => String::from_str("warning"),
            Severity::Help => String::from_str("help"),
        }
    }

    /// The diagnostic as a terminal line: `label: message`, the label in
    /// bold red for errors and bold yellow for warnings, plain for help, and the
    /// message in bold.
    pub fn render(&self) -> (r: String)
        ensures
            no_escape(self@.message) ==> exists|l: Seq<char>, m: Seq<char>|
                {
                    &&& match self@.severity {
                        Severity::Error => styled(label_text(self@), bold_red(), l),
                        Severity::Warning => styled(label_text(self@), bold_yellow(), l),
                        Severity::Help => l == label_text(self@),
                    }
                    &&& styled(self@.message, bold(), m)
                    &&& r@ == l + ": "@ + m
                },
    {
        let label = self.label();
        proof {
            reveal_strlit(": ");
            reveal_strlit("error[E-");
            reveal_strlit("]");
            reveal_strlit("error");
            reveal_strlit("warning");
            reveal_strlit("help");
            assert(no_escape(label@)) by {
                lemma_label_no_escape(self@);
            }
        }
        let mut out = match self.severity {
            Severity::Error => paint_bold_red(label.as_str()),
            Severity::Warning => paint_bold_yellow(label.as_str()),
            Severity::Help => label,
        };
        let ghost l = out@;
        out.append(": ");
        let m = paint_bold(self.message.as_str());
        out.append(m.as_str());
        assert(out@ =~= l + ": "@ + m@);
        out
    }

    pub fn message(&self) -> (r: &str)
        ensures
            r@ == self@.message,
    {
        self.message.as_str()
    }
}

/// Builds a `Diagnostic` step by step.
pub struct DiagnosticBuilder {
    inner: Diagnostic,
}

impl View for DiagnosticBuilder {
    type V = DiagnosticView;

    closed spec fn view(&self) -> DiagnosticView {
        self.inner@
    }
}

impl Default for DiagnosticBuilder {
    fn default() -> (r: Self)
        ensures
            r@ == empty_view(),
    {
        DiagnosticBuilder { inner: Diagnostic::default() }
    }
}

impl DiagnosticBuilder {
    pub fn new() -> (r: Self)
        ensures
            r@ == empty_view(),
    {
        Self::default()
    }

    pub fn with_severity(self, severity: Severity) -> (r: Self)
        ensures
            r@ == (DiagnosticView { severity, ..self@ }),
    {
        let mut s = self;
        s.inner.severity = severity;
        s
    }

    pub fn add_message(self, message: &str) -> (r: Self)
        ensures
            r@ == (DiagnosticView { message: message@, ..self@ }),
    {
        let mut s = self;
        s.inner.message = String::from_str(message);
        s
    }

    /// Takes message and code from the error kind, and makes the diagnostic an error.
    pub fn with_error_code<T: XynError>(self, error: T) -> (r: Self)
        ensures
            r@ == (DiagnosticView {
                severity: Severity::Error,
                message: error.message_spec(),
                error_code: Some(error.code_spec()),
                ..self@
            }),
    {
        let mut s = self;
        let text = error.message();
        s.inner.message = String::from_str(text);
        s.inner.error_code = Some(error.to_usize());
        s.inner.severity = Severity::Error;
        s
    }

    pub fn with_preview(self, preview: &str) -> (r: Self)
        ensures
            r@ == (DiagnosticView { preview: Some(preview@), ..self@ }),
    {
        let mut s = self;
        s.inner.preview = Some(String::from_str(preview));
        s
    }

    pub fn build(self) -> (r: Diagnostic)
        ensures
            r@ == self@,
    {
        self.inner
    }
}

} // verus!
