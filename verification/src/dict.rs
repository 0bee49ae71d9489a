//! The bundled package / command documentation dictionary.
//!
//! A small hand-curated table, sorted case-insensitively by title, searched
//! by binary search on the ASCII-lower-cased name.
use vstd::prelude::*;
use vstd::string::StringSliceAdditionalSpecFns;
use vstd::utf8::{encode_utf8, is_ascii_chars_encode_utf8};
use crate::text::{lower_seq, lower_bytes};

verus! {

/// Kind tag for a dictionary entry.
#[derive(Debug, Clone, Copy, PartialEq, Eq, Structural)]
pub enum DocKind {
    Package,
    Command,
}

/// One row of the bundled table.
#[derive(Clone, Copy)]
pub struct RawEntry {
    pub title: &'static str,
    pub kind: DocKind,
    pub short: &'static str,
    pub docs: Option<&'static str>,
}

/// One dictionary entry handed to callers.
#[derive(Clone, Debug)]
pub struct DictEntry {
    pub title: String,
    pub kind: DocKind,
    pub short: String,
    /// Optional longer markdown body.
    pub docs: Option<String>,
}

/// `e` carries the text of row `raw`.
pub open spec fn entry_is(e: DictEntry, raw: RawEntry) -> bool {
    &&& e.title@ == raw.title@
    &&& e.kind == raw.kind
    &&& e.short@ == raw.short@
    &&& match (e.docs, raw.docs) {
        (Some(d), Some(rd)) => d@ == rd@,
        (None, None) => true,
        _ => false,
    }
}

pub open spec fn spec_table() -> Seq<RawEntry> {
    seq![
        RawEntry { title: "addtocounter", kind: DocKind::Command, short: "Increment a counter.", docs: None },
        RawEntry { title: "algorithm2e", kind: DocKind::Package, short: "Floating algorithm environments.", docs: Some("Provides `algorithm` float and `procedure` environment with extensive formatting controls.") },
        RawEntry { title: "algorithmicx", kind: DocKind::Package, short: "Typeset pseudocode with rich control structures.", docs: Some("Successor to `algorithmic`. Use `\\\\algorithmic`/`\\\\algorithmicindent` or the `algpseudocode` style.") },
        RawEntry { title: "alpha", kind: DocKind::Command, short: "Lowercase Greek letter α.", docs: None },
        RawEntry { title: "amsfonts", kind: DocKind::Package, short: "Extra math alphabets (blackboard bold, Fraktur, …).", docs: Some("Provides `\\\\mathbb`, `\\\\mathfrak`, `\\\\mathscr`.") },
        RawEntry { title: "amsmath", kind: DocKind::Package, short: "Extended math environments and symbols.", docs: Some("Loads `equation`, `align`, `gather`, `multline`, `cases`, `\\\\text`, `\\\\boldsymbol`, etc.") },
        RawEntry { title: "amssymb", kind: DocKind::Package, short: "Extra math symbols.", docs: Some("Adds thousands of math-mode symbols beyond LaTeX2e core.") },
        RawEntry { title: "appendix", kind: DocKind::Command, short: "Switch section numbering to alphabetic for appendices.", docs: None },
        RawEntry { title: "author", kind: DocKind::Command, short: "Author of the document; appears on the title page.", docs: None },
        RawEntry { title: "autoref", kind: DocKind::Command, short: "Auto-prefixed reference (loads `hyperref`).", docs: None },
        RawEntry { title: "beta", kind: DocKind::Command, short: "Lowercase Greek letter β.", docs: None },
        RawEntry { title: "biblatex", kind: DocKind::Package, short: "Modern bibliography/citation handling.", docs: Some("Use `\\\\addbibresource` and `\\\\printbibliography`.  Cite with `\\\\cite`/`\\\\parencite`/`\\\\textcite`.") },
        RawEntry { title: "bibliography", kind: DocKind::Command, short: "Print the bibliography from one or more `.bib` files.", docs: None },
        RawEntry { title: "bibliographystyle", kind: DocKind::Command, short: "Select bibliography style (e.g. `plain`, `ieeetr`).", docs: None },
        RawEntry { title: "bm", kind: DocKind::Package, short: "Bold math symbols.", docs: Some("Provides `\\\\bm{...}` to bold entire math expressions.") },
        RawEntry { title: "booktabs", kind: DocKind::Package, short: "Professional-quality horizontal rules in tables.", docs: Some("Use `\\\\toprule`, `\\\\midrule`, `\\\\bottomrule` instead of vertical `\\\\hline`.") },
        RawEntry { title: "caption", kind: DocKind::Package, short: "Customise caption formatting for figures and tables.", docs: Some("Configurable via `\\\\captionsetup`.  `\\\\caption{...}` is the matching command.") },
        RawEntry { title: "cdot", kind: DocKind::Command, short: "Centered dot multiplication (·).", docs: None },
        RawEntry { title: "cdots", kind: DocKind::Command, short: "Centered horizontal ellipsis (⋯).", docs: None },
        RawEntry { title: "chapter", kind: DocKind::Command, short: "Top-level section heading (in `book` / `report`).", docs: None },
        RawEntry { title: "chi", kind: DocKind::Command, short: "Lowercase Greek letter χ.", docs: None },
        RawEntry { title: "cite", kind: DocKind::Command, short: "Numeric or author-year citation (depends on bibliography style).", docs: None },
        RawEntry { title: "citep", kind: DocKind::Command, short: "Parenthetical citation (parentheses around the year/number).", docs: None },
        RawEntry { title: "citet", kind: DocKind::Command, short: "In-text citation (year/number inline, no parentheses).", docs: None },
        RawEntry { title: "clearpage", kind: DocKind::Command, short: "Page break that flushes pending floats.", docs: None },
        RawEntry { title: "cref", kind: DocKind::Command, short: "Smart cross-reference (loads `cleveref`).  Includes the env prefix (eq. / fig. / §).", docs: None },
        RawEntry { title: "date", kind: DocKind::Command, short: "Date shown on the title page.", docs: None },
        RawEntry { title: "delta", kind: DocKind::Command, short: "Lowercase Greek letter δ.", docs: None },
        RawEntry { title: "documentclass", kind: DocKind::Command, short: "Pick the document class (`article`, `book`, `report`, …).", docs: None },
        RawEntry { title: "dots", kind: DocKind::Command, short: "Context-sensitive ellipsis.", docs: None },
        RawEntry { title: "emph", kind: DocKind::Command, short: "Emphasis; rendered as italic in normal text, upright in italic context.", docs: None },
        RawEntry { title: "end", kind: DocKind::Command, short: "Close a previously opened environment.", docs: None },
        RawEntry { title: "epsilon", kind: DocKind::Command, short: "Lowercase Greek letter ε.", docs: None },
        RawEntry { title: "eqref", kind: DocKind::Command, short: "Reference an equation, wrapping the number in parentheses.", docs: None },
        RawEntry { title: "eta", kind: DocKind::Command, short: "Lowercase Greek letter η.", docs: None },
        RawEntry { title: "fontenc", kind: DocKind::Package, short: "Select font encoding (T1, T2A, …).", docs: Some("Most projects use `\\\\usepackage[T1]{fontenc}` for hyphenation correctness.") },
        RawEntry { title: "footnote", kind: DocKind::Command, short: "Footnote text.", docs: None },
        RawEntry { title: "frac", kind: DocKind::Command, short: "Fraction: `\\\\frac{numerator}{denominator}`.", docs: None },
        RawEntry { title: "gamma", kind: DocKind::Command, short: "Lowercase Greek letter γ.", docs: None },
        RawEntry { title: "geometry", kind: DocKind::Package, short: "Set page geometry (margins, paper size).", docs: Some("Configure via `\\\\geometry{left=…, right=…, top=…, bottom=…}`.") },
        RawEntry { title: "glossaries", kind: DocKind::Package, short: "Acronyms and glossary entries.", docs: Some("Use `\\\\newglossaryentry`/`\\\\newacronym` then `\\\\printglossaries`.") },
        RawEntry { title: "graphicx", kind: DocKind::Package, short: "Include external graphics.", docs: Some("Provides `\\\\includegraphics{file}` with `width`/`height`/key-value options.") },
        RawEntry { title: "href", kind: DocKind::Command, short: "Hyperlink text to a URL.", docs: None },
        RawEntry { title: "hyperref", kind: DocKind::Package, short: "Clickable hyperlinks and PDF metadata.", docs: Some("Loads last in the preamble for correct behaviour.  Use `\\\\href{url}{text}` from the matching command.") },
        RawEntry { title: "include", kind: DocKind::Command, short: "Include another `.tex` file, starting on a new page.", docs: None },
        RawEntry { title: "infty", kind: DocKind::Command, short: "Infinity symbol (∞).", docs: None },
        RawEntry { title: "input", kind: DocKind::Command, short: "Inline-include another `.tex` file (no page break).", docs: None },
        RawEntry { title: "inputenc", kind: DocKind::Package, short: "Set input encoding (utf8, latin1, …).", docs: Some("Use `\\\\usepackage[utf8]{inputenc}` for non-ASCII source files.") },
        RawEntry { title: "int", kind: DocKind::Command, short: "Integral symbol (large operator).", docs: None },
        RawEntry { title: "item", kind: DocKind::Command, short: "Item in an `itemize` / `enumerate` / `description` list.", docs: None },
        RawEntry { title: "kappa", kind: DocKind::Command, short: "Lowercase Greek letter κ.", docs: None },
        RawEntry { title: "kpsewhich", kind: DocKind::Package, short: "Test TeX path lookup from inside a document.", docs: Some("Shell-style `\\\\ShellEscape` companion; not commonly used directly in user docs.") },
        RawEntry { title: "label", kind: DocKind::Command, short: "Mark a position or equation with a key for `\\\\ref{…}`.", docs: None },
        RawEntry { title: "ldots", kind: DocKind::Command, short: "Baseline horizontal ellipsis (…).", docs: None },
        RawEntry { title: "Leftarrow", kind: DocKind::Command, short: "Double left-arrow (⇐).", docs: None },
        RawEntry { title: "Leftrightarrow", kind: DocKind::Command, short: "Double bi-directional arrow (⇔).", docs: None },
        RawEntry { title: "leq", kind: DocKind::Command, short: "Less-than-or-equal (≤).", docs: None },
        RawEntry { title: "listings", kind: DocKind::Package, short: "Typeset source code.", docs: Some("Use `\\\\begin{lstlisting}` with `language=` option or `\\\\lstset`.") },
        RawEntry { title: "lmodern", kind: DocKind::Package, short: "Latin Modern fonts (Computer Modern successor).", docs: Some("Pair with `\\\\usepackage[T1]{fontenc}` for cleaner PDF output.") },
        RawEntry { title: "mathbf", kind: DocKind::Command, short: "Bold math alphabet.", docs: None },
        RawEntry { title: "mathcal", kind: DocKind::Command, short: "Calligraphic alphabet (𝒜, ℬ, …).", docs: None },
        RawEntry { title: "mathfrak", kind: DocKind::Command, short: "Fraktur alphabet (𝔄, 𝔅, …); loads `amssymb`.", docs: None },
        RawEntry { title: "mathit", kind: DocKind::Command, short: "Italic math alphabet.", docs: None },
        RawEntry { title: "mathrm", kind: DocKind::Command, short: "Upright (roman) math alphabet.", docs: None },
        RawEntry { title: "mathsf", kind: DocKind::Command, short: "Sans-serif math alphabet.", docs: None },
        RawEntry { title: "mathtools", kind: DocKind::Package, short: "Bug-fixes and extras for `amsmath`.", docs: Some("Loads `amsmath` automatically.  Adds `\\\\xRightarrow`, `\\\\xrightarrow[]`, `\\\\coloneqq`, etc.") },
        RawEntry { title: "minted", kind: DocKind::Package, short: "Syntax-highlighted source code via Pygments.", docs: Some("Requires `\\\\ShellEscape` (Python + Pygments).  Use `\\\\begin{minted}{lang}`.") },
        RawEntry { title: "mu", kind: DocKind::Command, short: "Lowercase Greek letter μ.", docs: None },
        RawEntry { title: "nabla", kind: DocKind::Command, short: "Gradient / nabla operator (∇).", docs: None },
        RawEntry { title: "nameref", kind: DocKind::Command, short: "Print the section/heading text rather than its number (loads `hyperref`).", docs: None },
        RawEntry { title: "natbib", kind: DocKind::Package, short: "Author-year / numerical citations.", docs: Some("Use `\\\\citet`, `\\\\citep`, `\\\\citeauthor`, `\\\\citeyear`.") },
        RawEntry { title: "newcommand", kind: DocKind::Command, short: "Define a new command: `\\\\newcommand{\\\\foo}{bar}`.", docs: None },
        RawEntry { title: "newpage", kind: DocKind::Command, short: "Forced page break.", docs: None },
        RawEntry { title: "noindent", kind: DocKind::Command, short: "Suppress indentation for this paragraph.", docs: None },
        RawEntry { title: "nu", kind: DocKind::Command, short: "Lowercase Greek letter ν.", docs: None },
        RawEntry { title: "omega", kind: DocKind::Command, short: "Lowercase Greek letter ω.", docs: None },
        RawEntry { title: "pagebreak", kind: DocKind::Command, short: "Forced page break with optional stretch.", docs: None },
        RawEntry { title: "pageref", kind: DocKind::Command, short: "Print the page number of a `\\\\label{key}`.", docs: None },
        RawEntry { title: "par", kind: DocKind::Command, short: "Paragraph break.", docs: None },
        RawEntry { title: "paragraph", kind: DocKind::Command, short: "Paragraph-level heading (a run-in heading).", docs: None },
        RawEntry { title: "partial", kind: DocKind::Command, short: "Partial-derivative symbol (∂).", docs: None },
        RawEntry { title: "pdfpages", kind: DocKind::Package, short: "Include external PDF pages.", docs: Some("Use `\\\\includepdf[pages=1-3]{file.pdf}`.") },
        RawEntry { title: "phi", kind: DocKind::Command, short: "Lowercase Greek letter φ.", docs: None },
        RawEntry { title: "pi", kind: DocKind::Command, short: "Lowercase Greek letter π.", docs: None },
        RawEntry { title: "pm", kind: DocKind::Command, short: "Plus-minus (±).", docs: None },
        RawEntry { title: "prod", kind: DocKind::Command, short: "Product symbol (large operator).", docs: None },
        RawEntry { title: "providecommand", kind: DocKind::Command, short: "Define a command only if it isn't already defined.", docs: None },
        RawEntry { title: "psi", kind: DocKind::Command, short: "Lowercase Greek letter ψ.", docs: None },
        RawEntry { title: "qquad", kind: DocKind::Command, short: "Two em-spaces in math mode.", docs: None },
        RawEntry { title: "quad", kind: DocKind::Command, short: "Em-space in math mode.", docs: None },
        RawEntry { title: "ref", kind: DocKind::Command, short: "Reference a `\\\\label{key}` and print its number.", docs: None },
        RawEntry { title: "renewcommand", kind: DocKind::Command, short: "Re-define an existing command.", docs: None },
        RawEntry { title: "RequirePackage", kind: DocKind::Command, short: "Load a package (LaTeX-package-style); usable inside class files.", docs: None },
        RawEntry { title: "rho", kind: DocKind::Command, short: "Lowercase Greek letter ρ.", docs: None },
        RawEntry { title: "section", kind: DocKind::Command, short: "Section heading.", docs: None },
        RawEntry { title: "setcounter", kind: DocKind::Command, short: "Set a counter: `\\\\setcounter{secnumdepth}{0}`.", docs: None },
        RawEntry { title: "sigma", kind: DocKind::Command, short: "Lowercase Greek letter σ.", docs: None },
        RawEntry { title: "siunitx", kind: DocKind::Package, short: "Consistent number/unit typesetting.", docs: Some("Use `\\\\num`, `\\\\si`, `\\\\SI`, `\\\\ang` for numbers, units, angles.") },
        RawEntry { title: "sqrt", kind: DocKind::Command, short: "Square root: `\\\\sqrt{x}`.  Optional argument: `\\\\sqrt[n]{x}`.", docs: None },
        RawEntry { title: "standalone", kind: DocKind::Package, short: "Compile single figures/tables as standalone PDFs.", docs: Some("Use `documentclass{standalone}` for tightly cropped sub-figures.") },
        RawEntry { title: "subcaption", kind: DocKind::Package, short: "Sub-figures and sub-tables.", docs: None },
        RawEntry { title: "subsection", kind: DocKind::Command, short: "Subsection heading.", docs: None },
        RawEntry { title: "subsubsection", kind: DocKind::Command, short: "Sub-subsection heading.", docs: None },
        RawEntry { title: "sum", kind: DocKind::Command, short: "Summation symbol (large operator).", docs: None },
        RawEntry { title: "tau", kind: DocKind::Command, short: "Lowercase Greek letter τ.", docs: None },
        RawEntry { title: "tcolorbox", kind: DocKind::Package, short: "Coloured/shaded framed boxes with titles.", docs: Some("Use `\\\\begin{tcolorbox}` with `colback`/`colframe`/etc. options.") },
        RawEntry { title: "text", kind: DocKind::Command, short: "Text mode inside math (loads `amsmath`).", docs: None },
        RawEntry { title: "textbf", kind: DocKind::Command, short: "Bold text.", docs: Some("`\\\\textbf{bold}`.") },
        RawEntry { title: "textit", kind: DocKind::Command, short: "Italic text.", docs: Some("`\\\\textit{italic}`.") },
        RawEntry { title: "textrm", kind: DocKind::Command, short: "Roman (serif) text.", docs: None },
        RawEntry { title: "textsc", kind: DocKind::Command, short: "Small-caps text.", docs: None },
        RawEntry { title: "textsf", kind: DocKind::Command, short: "Sans-serif text.", docs: None },
        RawEntry { title: "textsubscript", kind: DocKind::Command, short: "Text-mode subscript (requires `fixltx2e` or modern LaTeX).", docs: None },
        RawEntry { title: "textsuperscript", kind: DocKind::Command, short: "Text-mode superscript.", docs: None },
        RawEntry { title: "texttt", kind: DocKind::Command, short: "Monospace (typewriter) text.", docs: None },
        RawEntry { title: "theta", kind: DocKind::Command, short: "Lowercase Greek letter θ.", docs: None },
        RawEntry { title: "tikz", kind: DocKind::Package, short: "Programmable vector graphics.", docs: Some("Use `\\\\begin{tikzpicture}`; pair with `pgfplots` for plots.") },
        RawEntry { title: "times", kind: DocKind::Command, short: "Multiplication cross (×).", docs: None },
        RawEntry { title: "title", kind: DocKind::Command, short: "Title of the document; appears on the title page.", docs: None },
        RawEntry { title: "to", kind: DocKind::Command, short: "Right-arrow (→); alternative: `\\\\rightarrow`.", docs: None },
        RawEntry { title: "underline", kind: DocKind::Command, short: "Underlined text.", docs: None },
        RawEntry { title: "url", kind: DocKind::Command, short: "Typeset a URL.", docs: None },
        RawEntry { title: "usepackage", kind: DocKind::Command, short: "Load a package from the preamble.", docs: None },
        RawEntry { title: "varepsilon", kind: DocKind::Command, short: "Variant epsilon (ε).", docs: None },
        RawEntry { title: "varphi", kind: DocKind::Command, short: "Variant phi (ϕ).", docs: None },
        RawEntry { title: "varpi", kind: DocKind::Command, short: "Variant pi (ϖ).", docs: None },
        RawEntry { title: "varrho", kind: DocKind::Command, short: "Variant rho (ϱ).", docs: None },
        RawEntry { title: "varsigma", kind: DocKind::Command, short: "Variant sigma (ς).", docs: None },
        RawEntry { title: "vartheta", kind: DocKind::Command, short: "Variant theta (ϑ).", docs: None },
        RawEntry { title: "xcolor", kind: DocKind::Package, short: "Colour support and definitions.", docs: Some("Provides `\\\\color`, `\\\\textcolor`, `\\\\definecolor`.") },
        RawEntry { title: "xi", kind: DocKind::Command, short: "Lowercase Greek letter ξ.", docs: None },
        RawEntry { title: "xparse", kind: DocKind::Package, short: "Define rich command/environment interfaces.", docs: Some("Use `\\\\NewDocumentCommand` for commands with optional/argument-rich signatures.") },
        RawEntry { title: "zeta", kind: DocKind::Command, short: "Lowercase Greek letter ζ.", docs: None },
    ]
}

/// The bundled table, in title order.
pub fn table() -> (r: Vec<RawEntry>)
    ensures
        r@ == spec_table(),
{
    vec![
        RawEntry { title: "addtocounter", kind: DocKind::Command, short: "Increment a counter.", docs: None },
        RawEntry { title: "algorithm2e", kind: DocKind::Package, short: "Floating algorithm environments.", docs: Some("Provides `algorithm` float and `procedure` environment with extensive formatting controls.") },
        RawEntry { title: "algorithmicx", kind: DocKind::Package, short: "Typeset pseudocode with rich control structures.", docs: Some("Successor to `algorithmic`. Use `\\\\algorithmic`/`\\\\algorithmicindent` or the `algpseudocode` style.") },
        RawEntry { title: "alpha", kind: DocKind::Command, short: "Lowercase Greek letter α.", docs: None },
        RawEntry { title: "amsfonts", kind: DocKind::Package, short: "Extra math alphabets (blackboard bold, Fraktur, …).", docs: Some("Provides `\\\\mathbb`, `\\\\mathfrak`, `\\\\mathscr`.") },
        RawEntry { title: "amsmath", kind: DocKind::Package, short: "Extended math environments and symbols.", docs: Some("Loads `equation`, `align`, `gather`, `multline`, `cases`, `\\\\text`, `\\\\boldsymbol`, etc.") },
        RawEntry { title: "amssymb", kind: DocKind::Package, short: "Extra math symbols.", docs: Some("Adds thousands of math-mode symbols beyond LaTeX2e core.") },
        RawEntry { title: "appendix", kind: DocKind::Command, short: "Switch section numbering to alphabetic for appendices.", docs: None },
        RawEntry { title: "author", kind: DocKind::Command, short: "Author of the document; appears on the title page.", docs: None },
        RawEntry { title: "autoref", kind: DocKind::Command, short: "Auto-prefixed reference (loads `hyperref`).", docs: None },
        RawEntry { title: "beta", kind: DocKind::Command, short: "Lowercase Greek letter β.", docs: None },
        RawEntry { title: "biblatex", kind: DocKind::Package, short: "Modern bibliography/citation handling.", docs: Some("Use `\\\\addbibresource` and `\\\\printbibliography`.  Cite with `\\\\cite`/`\\\\parencite`/`\\\\textcite`.") },
        RawEntry { title: "bibliography", kind: DocKind::Command, short: "Print the bibliography from one or more `.bib` files.", docs: None },
        RawEntry { title: "bibliographystyle", kind: DocKind::Command, short: "Select bibliography style (e.g. `plain`, `ieeetr`).", docs: None },
        RawEntry { title: "bm", kind: DocKind::Package, short: "Bold math symbols.", docs: Some("Provides `\\\\bm{...}` to bold entire math expressions.") },
        RawEntry { title: "booktabs", kind: DocKind::Package, short: "Professional-quality horizontal rules in tables.", docs: Some("Use `\\\\toprule`, `\\\\midrule`, `\\\\bottomrule` instead of vertical `\\\\hline`.") },
        RawEntry { title: "caption", kind: DocKind::Package, short: "Customise caption formatting for figures and tables.", docs: Some("Configurable via `\\\\captionsetup`.  `\\\\caption{...}` is the matching command.") },
        RawEntry { title: "cdot", kind: DocKind::Command, short: "Centered dot multiplication (·).", docs: None },
        RawEntry { title: "cdots", kind: DocKind::Command, short: "Centered horizontal ellipsis (⋯).", docs: None },
        RawEntry { title: "chapter", kind: DocKind::Command, short: "Top-level section heading (in `book` / `report`).", docs: None },
        RawEntry { title: "chi", kind: DocKind::Command, short: "Lowercase Greek letter χ.", docs: None },
        RawEntry { title: "cite", kind: DocKind::Command, short: "Numeric or author-year citation (depends on bibliography style).", docs: None },
        RawEntry { title: "citep", kind: DocKind::Command, short: "Parenthetical citation (parentheses around the year/number).", docs: None },
        RawEntry { title: "citet", kind: DocKind::Command, short: "In-text citation (year/number inline, no parentheses).", docs: None },
        RawEntry { title: "clearpage", kind: DocKind::Command, short: "Page break that flushes pending floats.", docs: None },
        RawEntry { title: "cref", kind: DocKind::Command, short: "Smart cross-reference (loads `cleveref`).  Includes the env prefix (eq. / fig. / §).", docs: None },
        RawEntry { title: "date", kind: DocKind::Command, short: "Date shown on the title page.", docs: None },
        RawEntry { title: "delta", kind: DocKind::Command, short: "Lowercase Greek letter δ.", docs: None },
        RawEntry { title: "documentclass", kind: DocKind::Command, short: "Pick the document class (`article`, `book`, `report`, …).", docs: None },
        RawEntry { title: "dots", kind: DocKind::Command, short: "Context-sensitive ellipsis.", docs: None },
        RawEntry { title: "emph", kind: DocKind::Command, short: "Emphasis; rendered as italic in normal text, upright in italic context.", docs: None },
        RawEntry { title: "end", kind: DocKind::Command, short: "Close a previously opened environment.", docs: None },
        RawEntry { title: "epsilon", kind: DocKind::Command, short: "Lowercase Greek letter ε.", docs: None },
        RawEntry { title: "eqref", kind: DocKind::Command, short: "Reference an equation, wrapping the number in parentheses.", docs: None },
        RawEntry { title: "eta", kind: DocKind::Command, short: "Lowercase Greek letter η.", docs: None },
        RawEntry { title: "fontenc", kind: DocKind::Package, short: "Select font encoding (T1, T2A, …).", docs: Some("Most projects use `\\\\usepackage[T1]{fontenc}` for hyphenation correctness.") },
        RawEntry { title: "footnote", kind: DocKind::Command, short: "Footnote text.", docs: None },
        RawEntry { title: "frac", kind: DocKind::Command, short: "Fraction: `\\\\frac{numerator}{denominator}`.", docs: None },
        RawEntry { title: "gamma", kind: DocKind::Command, short: "Lowercase Greek letter γ.", docs: None },
        RawEntry { title: "geometry", kind: DocKind::Package, short: "Set page geometry (margins, paper size).", docs: Some("Configure via `\\\\geometry{left=…, right=…, top=…, bottom=…}`.") },
        RawEntry { title: "glossaries", kind: DocKind::Package, short: "Acronyms and glossary entries.", docs: Some("Use `\\\\newglossaryentry`/`\\\\newacronym` then `\\\\printglossaries`.") },
        RawEntry { title: "graphicx", kind: DocKind::Package, short: "Include external graphics.", docs: Some("Provides `\\\\includegraphics{file}` with `width`/`height`/key-value options.") },
        RawEntry { title: "href", kind: DocKind::Command, short: "Hyperlink text to a URL.", docs: None },
        RawEntry { title: "hyperref", kind: DocKind::Package, short: "Clickable hyperlinks and PDF metadata.", docs: Some("Loads last in the preamble for correct behaviour.  Use `\\\\href{url}{text}` from the matching command.") },
        RawEntry { title: "include", kind: DocKind::Command, short: "Include another `.tex` file, starting on a new page.", docs: None },
        RawEntry { title: "infty", kind: DocKind::Command, short: "Infinity symbol (∞).", docs: None },
        RawEntry { title: "input", kind: DocKind::Command, short: "Inline-include another `.tex` file (no page break).", docs: None },
        RawEntry { title: "inputenc", kind: DocKind::Package, short: "Set input encoding (utf8, latin1, …).", docs: Some("Use `\\\\usepackage[utf8]{inputenc}` for non-ASCII source files.") },
        RawEntry { title: "int", kind: DocKind::Command, short: "Integral symbol (large operator).", docs: None },
        RawEntry { title: "item", kind: DocKind::Command, short: "Item in an `itemize` / `enumerate` / `description` list.", docs: None },
        RawEntry { title: "kappa", kind: DocKind::Command, short: "Lowercase Greek letter κ.", docs: None },
        RawEntry { title: "kpsewhich", kind: DocKind::Package, short: "Test TeX path lookup from inside a document.", docs: Some("Shell-style `\\\\ShellEscape` companion; not commonly used directly in user docs.") },
        RawEntry { title: "label", kind: DocKind::Command, short: "Mark a position or equation with a key for `\\\\ref{…}`.", docs: None },
        RawEntry { title: "ldots", kind: DocKind::Command, short: "Baseline horizontal ellipsis (…).", docs: None },
        RawEntry { title: "Leftarrow", kind: DocKind::Command, short: "Double left-arrow (⇐).", docs: None },
        RawEntry { title: "Leftrightarrow", kind: DocKind::Command, short: "Double bi-directional arrow (⇔).", docs: None },
        RawEntry { title: "leq", kind: DocKind::Command, short: "Less-than-or-equal (≤).", docs: None },
        RawEntry { title: "listings", kind: DocKind::Package, short: "Typeset source code.", docs: Some("Use `\\\\begin{lstlisting}` with `language=` option or `\\\\lstset`.") },
        RawEntry { title: "lmodern", kind: DocKind::Package, short: "Latin Modern fonts (Computer Modern successor).", docs: Some("Pair with `\\\\usepackage[T1]{fontenc}` for cleaner PDF output.") },
        RawEntry { title: "mathbf", kind: DocKind::Command, short: "Bold math alphabet.", docs: None },
        RawEntry { title: "mathcal", kind: DocKind::Command, short: "Calligraphic alphabet (𝒜, ℬ, …).", docs: None },
        RawEntry { title: "mathfrak", kind: DocKind::Command, short: "Fraktur alphabet (𝔄, 𝔅, …); loads `amssymb`.", docs: None },
        RawEntry { title: "mathit", kind: DocKind::Command, short: "Italic math alphabet.", docs: None },
        RawEntry { title: "mathrm", kind: DocKind::Command, short: "Upright (roman) math alphabet.", docs: None },
        RawEntry { title: "mathsf", kind: DocKind::Command, short: "Sans-serif math alphabet.", docs: None },
        RawEntry { title: "mathtools", kind: DocKind::Package, short: "Bug-fixes and extras for `amsmath`.", docs: Some("Loads `amsmath` automatically.  Adds `\\\\xRightarrow`, `\\\\xrightarrow[]`, `\\\\coloneqq`, etc.") },
        RawEntry { title: "minted", kind: DocKind::Package, short: "Syntax-highlighted source code via Pygments.", docs: Some("Requires `\\\\ShellEscape` (Python + Pygments).  Use `\\\\begin{minted}{lang}`.") },
        RawEntry { title: "mu", kind: DocKind::Command, short: "Lowercase Greek letter μ.", docs: None },
        RawEntry { title: "nabla", kind: DocKind::Command, short: "Gradient / nabla operator (∇).", docs: None },
        RawEntry { title: "nameref", kind: DocKind::Command, short: "Print the section/heading text rather than its number (loads `hyperref`).", docs: None },
        RawEntry { title: "natbib", kind: DocKind::Package, short: "Author-year / numerical citations.", docs: Some("Use `\\\\citet`, `\\\\citep`, `\\\\citeauthor`, `\\\\citeyear`.") },
        RawEntry { title: "newcommand", kind: DocKind::Command, short: "Define a new command: `\\\\newcommand{\\\\foo}{bar}`.", docs: None },
        RawEntry { title: "newpage", kind: DocKind::Command, short: "Forced page break.", docs: None },
        RawEntry { title: "noindent", kind: DocKind::Command, short: "Suppress indentation for this paragraph.", docs: None },
        RawEntry { title: "nu", kind: DocKind::Command, short: "Lowercase Greek letter ν.", docs: None },
        RawEntry { title: "omega", kind: DocKind::Command, short: "Lowercase Greek letter ω.", docs: None },
        RawEntry { title: "pagebreak", kind: DocKind::Command, short: "Forced page break with optional stretch.", docs: None },
        RawEntry { title: "pageref", kind: DocKind::Command, short: "Print the page number of a `\\\\label{key}`.", docs: None },
        RawEntry { title: "par", kind: DocKind::Command, short: "Paragraph break.", docs: None },
        RawEntry { title: "paragraph", kind: DocKind::Command, short: "Paragraph-level heading (a run-in heading).", docs: None },
        RawEntry { title: "partial", kind: DocKind::Command, short: "Partial-derivative symbol (∂).", docs: None },
        RawEntry { title: "pdfpages", kind: DocKind::Package, short: "Include external PDF pages.", docs: Some("Use `\\\\includepdf[pages=1-3]{file.pdf}`.") },
        RawEntry { title: "phi", kind: DocKind::Command, short: "Lowercase Greek letter φ.", docs: None },
        RawEntry { title: "pi", kind: DocKind::Command, short: "Lowercase Greek letter π.", docs: None },
        RawEntry { title: "pm", kind: DocKind::Command, short: "Plus-minus (±).", docs: None },
        RawEntry { title: "prod", kind: DocKind::Command, short: "Product symbol (large operator).", docs: None },
        RawEntry { title: "providecommand", kind: DocKind::Command, short: "Define a command only if it isn't already defined.", docs: None },
        RawEntry { title: "psi", kind: DocKind::Command, short: "Lowercase Greek letter ψ.", docs: None },
        RawEntry { title: "qquad", kind: DocKind::Command, short: "Two em-spaces in math mode.", docs: None },
        RawEntry { title: "quad", kind: DocKind::Command, short: "Em-space in math mode.", docs: None },
        RawEntry { title: "ref", kind: DocKind::Command, short: "Reference a `\\\\label{key}` and print its number.", docs: None },
        RawEntry { title: "renewcommand", kind: DocKind::Command, short: "Re-define an existing command.", docs: None },
        RawEntry { title: "RequirePackage", kind: DocKind::Command, short: "Load a package (LaTeX-package-style); usable inside class files.", docs: None },
        RawEntry { title: "rho", kind: DocKind::Command, short: "Lowercase Greek letter ρ.", docs: None },
        RawEntry { title: "section", kind: DocKind::Command, short: "Section heading.", docs: None },
        RawEntry { title: "setcounter", kind: DocKind::Command, short: "Set a counter: `\\\\setcounter{secnumdepth}{0}`.", docs: None },
        RawEntry { title: "sigma", kind: DocKind::Command, short: "Lowercase Greek letter σ.", docs: None },
        RawEntry { title: "siunitx", kind: DocKind::Package, short: "Consistent number/unit typesetting.", docs: Some("Use `\\\\num`, `\\\\si`, `\\\\SI`, `\\\\ang` for numbers, units, angles.") },
        RawEntry { title: "sqrt", kind: DocKind::Command, short: "Square root: `\\\\sqrt{x}`.  Optional argument: `\\\\sqrt[n]{x}`.", docs: None },
        RawEntry { title: "standalone", kind: DocKind::Package, short: "Compile single figures/tables as standalone PDFs.", docs: Some("Use `documentclass{standalone}` for tightly cropped sub-figures.") },
        RawEntry { title: "subcaption", kind: DocKind::Package, short: "Sub-figures and sub-tables.", docs: None },
        RawEntry { title: "subsection", kind: DocKind::Command, short: "Subsection heading.", docs: None },
        RawEntry { title: "subsubsection", kind: DocKind::Command, short: "Sub-subsection heading.", docs: None },
        RawEntry { title: "sum", kind: DocKind::Command, short: "Summation symbol (large operator).", docs: None },
        RawEntry { title: "tau", kind: DocKind::Command, short: "Lowercase Greek letter τ.", docs: None },
        RawEntry { title: "tcolorbox", kind: DocKind::Package, short: "Coloured/shaded framed boxes with titles.", docs: Some("Use `\\\\begin{tcolorbox}` with `colback`/`colframe`/etc. options.") },
        RawEntry { title: "text", kind: DocKind::Command, short: "Text mode inside math (loads `amsmath`).", docs: None },
        RawEntry { title: "textbf", kind: DocKind::Command, short: "Bold text.", docs: Some("`\\\\textbf{bold}`.") },
        RawEntry { title: "textit", kind: DocKind::Command, short: "Italic text.", docs: Some("`\\\\textit{italic}`.") },
        RawEntry { title: "textrm", kind: DocKind::Command, short: "Roman (serif) text.", docs: None },
        RawEntry { title: "textsc", kind: DocKind::Command, short: "Small-caps text.", docs: None },
        RawEntry { title: "textsf", kind: DocKind::Command, short: "Sans-serif text.", docs: None },
        RawEntry { title: "textsubscript", kind: DocKind::Command, short: "Text-mode subscript (requires `fixltx2e` or modern LaTeX).", docs: None },
        RawEntry { title: "textsuperscript", kind: DocKind::Command, short: "Text-mode superscript.", docs: None },
        RawEntry { title: "texttt", kind: DocKind::Command, short: "Monospace (typewriter) text.", docs: None },
        RawEntry { title: "theta", kind: DocKind::Command, short: "Lowercase Greek letter θ.", docs: None },
        RawEntry { title: "tikz", kind: DocKind::Package, short: "Programmable vector graphics.", docs: Some("Use `\\\\begin{tikzpicture}`; pair with `pgfplots` for plots.") },
        RawEntry { title: "times", kind: DocKind::Command, short: "Multiplication cross (×).", docs: None },
        RawEntry { title: "title", kind: DocKind::Command, short: "Title of the document; appears on the title page.", docs: None },
        RawEntry { title: "to", kind: DocKind::Command, short: "Right-arrow (→); alternative: `\\\\rightarrow`.", docs: None },
        RawEntry { title: "underline", kind: DocKind::Command, short: "Underlined text.", docs: None },
        RawEntry { title: "url", kind: DocKind::Command, short: "Typeset a URL.", docs: None },
        RawEntry { title: "usepackage", kind: DocKind::Command, short: "Load a package from the preamble.", docs: None },
        RawEntry { title: "varepsilon", kind: DocKind::Command, short: "Variant epsilon (ε).", docs: None },
        RawEntry { title: "varphi", kind: DocKind::Command, short: "Variant phi (ϕ).", docs: None },
        RawEntry { title: "varpi", kind: DocKind::Command, short: "Variant pi (ϖ).", docs: None },
        RawEntry { title: "varrho", kind: DocKind::Command, short: "Variant rho (ϱ).", docs: None },
        RawEntry { title: "varsigma", kind: DocKind::Command, short: "Variant sigma (ς).", docs: None },
        RawEntry { title: "vartheta", kind: DocKind::Command, short: "Variant theta (ϑ).", docs: None },
        RawEntry { title: "xcolor", kind: DocKind::Package, short: "Colour support and definitions.", docs: Some("Provides `\\\\color`, `\\\\textcolor`, `\\\\definecolor`.") },
        RawEntry { title: "xi", kind: DocKind::Command, short: "Lowercase Greek letter ξ.", docs: None },
        RawEntry { title: "xparse", kind: DocKind::Package, short: "Define rich command/environment interfaces.", docs: Some("Use `\\\\NewDocumentCommand` for commands with optional/argument-rich signatures.") },
        RawEntry { title: "zeta", kind: DocKind::Command, short: "Lowercase Greek letter ζ.", docs: None },
    ]
}

// ── ordering of byte strings ───────────────────────────────────────────

/// Lexicographic byte order (the order of `String`'s `Ord`).
pub open spec fn lex_lt(a: Seq<u8>, b: Seq<u8>) -> bool
    decreases a.len(),
{
    if a.len() == 0 {
        b.len() > 0
    } else if b.len() == 0 {
        false
    } else if a[0] < b[0] {
        true
    } else if a[0] > b[0] {
        false
    } else {
        lex_lt(a.drop_first(), b.drop_first())
    }
}

/// `lex_lt` is irreflexive.
pub proof fn lemma_lex_irreflexive(a: Seq<u8>)
    ensures
        !lex_lt(a, a),
    decreases a.len(),
{
    if a.len() > 0 {
        lemma_lex_irreflexive(a.drop_first());
    }
}

/// Any two byte strings are equal or ordered one way, and not both ways.
pub proof fn lemma_lex_total(a: Seq<u8>, b: Seq<u8>)
    ensures
        a == b || lex_lt(a, b) || lex_lt(b, a),
        !(lex_lt(a, b) && lex_lt(b, a)),
    decreases a.len(),
{
    if a.len() == 0 && b.len() == 0 {
        assert(a =~= b);
    } else if a.len() > 0 && b.len() > 0 && a[0] == b[0] {
        lemma_lex_total(a.drop_first(), b.drop_first());
        if a.drop_first() == b.drop_first() {
            assert forall|k: int| 0 <= k < a.len() implies a[k] == b[k] by {
                if k > 0 {
                    assert(a[k] == a.drop_first()[k - 1]);
                    assert(b[k] == b.drop_first()[k - 1]);
                }
            }
            assert(a =~= b);
        }
    }
}

/// `lex_lt` is transitive.
pub proof fn lemma_lex_trans(a: Seq<u8>, b: Seq<u8>, c: Seq<u8>)
    requires
        lex_lt(a, b),
        lex_lt(b, c),
    ensures
        lex_lt(a, c),
    decreases a.len(),
{
    if a.len() > 0 && b.len() > 0 && c.len() > 0 && a[0] == b[0] && b[0] == c[0] {
        lemma_lex_trans(a.drop_first(), b.drop_first(), c.drop_first());
    }
}

/// Three-way comparison of byte strings: -1, 0 or 1.
pub fn compare_bytes(a: &[u8], b: &[u8]) -> (r: i8)
    ensures
        r == 0 <==> a@ == b@,
        r < 0 <==> lex_lt(a@, b@),
        -1 <= r <= 1,
{
    let mut k: usize = 0;
    assert(a@.skip(0) =~= a@);
    assert(b@.skip(0) =~= b@);
    while k < a.len() && k < b.len() && a[k] == b[k]
        invariant
            k <= a@.len(),
            k <= b@.len(),
            a@.take(k as int) == b@.take(k as int),
            lex_lt(a@, b@) == lex_lt(a@.skip(k as int), b@.skip(k as int)),
        decreases a@.len() - k,
    {
        assert(a@.skip(k as int).drop_first() =~= a@.skip(k + 1));
        assert(b@.skip(k as int).drop_first() =~= b@.skip(k + 1));
        assert(a@.take(k + 1) =~= a@.take(k as int).push(a@[k as int]));
        assert(b@.take(k + 1) =~= b@.take(k as int).push(b@[k as int]));
        k += 1;
    }
    if k == a.len() && k == b.len() {
        assert(a@ =~= a@.take(k as int));
        assert(b@ =~= b@.take(k as int));
        0
    } else if k == a.len() {
        assert(a@.len() != b@.len());
        -1
    } else if k == b.len() {
        assert(a@.len() != b@.len());
        1
    } else if a[k] < b[k] {
        assert(a@[k as int] != b@[k as int]);
        -1
    } else {
        assert(a@[k as int] != b@[k as int]);
        1
    }
}

/// Binary search over rows `lo..hi` for the row whose lower-cased title is
/// `needle`.
pub open spec fn bsearch(needle: Seq<u8>, lo: int, hi: int) -> Option<int>
    decreases hi - lo,
{
    if lo >= hi || lo < 0 || hi > spec_table().len() {
        None
    } else {
        let mid = (lo + hi) / 2;
        let t = lower_seq(spec_table()[mid].title.spec_bytes());
        if t == needle {
            Some(mid)
        } else if lex_lt(t, needle) {
            bsearch(needle, mid + 1, hi)
        } else {
            bsearch(needle, lo, mid)
        }
    }
}

pub proof fn lemma_bsearch_in_range(needle: Seq<u8>, lo: int, hi: int)
    ensures
        bsearch(needle, lo, hi) matches Some(i) ==> lo <= i < hi && 0 <= i < spec_table().len()
            && lower_seq(spec_table()[i].title.spec_bytes()) == needle,
    decreases hi - lo,
{
    if !(lo >= hi || lo < 0 || hi > spec_table().len()) {
        let mid = (lo + hi) / 2;
        let t = lower_seq(spec_table()[mid].title.spec_bytes());
        if t != needle {
            if lex_lt(t, needle) {
                lemma_bsearch_in_range(needle, mid + 1, hi);
            } else {
                lemma_bsearch_in_range(needle, lo, mid);
            }
        }
    }
}

/// The row that [`lookup`] finds for the name with characters `name`.
pub open spec fn lookup_chars(name: Seq<char>) -> Option<int> {
    bsearch(lower_seq(encode_utf8(name)), 0, spec_table().len() as int)
}

/// The row that [`lookup`] finds for `name`.
pub open spec fn spec_lookup_index(name: &str) -> Option<int> {
    lookup_chars(name@)
}

fn lookup_index(name: &str) -> (r: Option<usize>)
    ensures
        r matches Some(i) ==> spec_lookup_index(name) == Some(i as int),
        r is None ==> spec_lookup_index(name) is None,
{
    let needle = lower_bytes(name.as_bytes());
    let entries = table();
    let mut lo: usize = 0;
    let mut hi: usize = entries.len();
    while lo < hi
        invariant
            entries@ == spec_table(),
            lo <= hi <= entries@.len(),
            bsearch(needle@, lo as int, hi as int) == spec_lookup_index(name),
        decreases hi - lo,
    {
        let mid = lo + (hi - lo) / 2;
        let title = lower_bytes(entries[mid].title.as_bytes());
        let c = compare_bytes(title.as_slice(), needle.as_slice());
        if c == 0 {
            return Some(mid);
        } else if c < 0 {
            lo = mid + 1;
        } else {
            hi = mid;
        }
    }
    None
}

/// Look up a package or command name (ASCII case-insensitively) in the
/// bundled dictionary.
pub fn lookup(name: &str) -> (r: Option<DictEntry>)
    ensures
        match spec_lookup_index(name) {
            Some(i) => r matches Some(e) && entry_is(e, spec_table()[i]),
            None => r is None,
        },
{
    match lookup_index(name) {
        Some(idx) => {
            proof {
                lemma_bsearch_in_range(lower_seq(name.spec_bytes()), 0, spec_table().len() as int);
            }
            let entries = table();
            let raw = entries[idx];
            let docs = match raw.docs {
                Some(d) => Some(d.to_owned()),
                None => None,
            };
            Some(DictEntry {
                title: raw.title.to_owned(),
                kind: raw.kind,
                short: raw.short.to_owned(),
                docs,
            })
        },
        None => None,
    }
}

/// The lower-cased title of row `i`, as bytes.
pub open spec fn row_key(i: int) -> Seq<u8> {
    lower_seq(spec_table()[i].title.spec_bytes())
}

/// The rows are in strictly ascending order of their lower-cased titles.
pub open spec fn table_sorted() -> bool {
    forall|i: int, j: int| 0 <= i < j < spec_table().len() ==> lex_lt(#[trigger] row_key(i), #[trigger] row_key(j))
}

/// Whether the bundled table is in strictly ascending order of lower-cased
/// titles, which binary search needs.
pub fn table_is_sorted() -> (r: bool)
    ensures
        r == table_sorted(),
{
    let entries = table();
    let n = entries.len();
    if n == 0 {
        return true;
    }
    let mut prev = lower_bytes(entries[0].title.as_bytes());
    let mut k: usize = 1;
    while k < n
        invariant
            entries@ == spec_table(),
            n == entries@.len(),
            1 <= k <= n,
            prev@ == row_key(k - 1),
            forall|i: int, j: int| 0 <= i < j < k ==> lex_lt(#[trigger] row_key(i), #[trigger] row_key(j)),
        decreases n - k,
    {
        let cur = lower_bytes(entries[k].title.as_bytes());
        if compare_bytes(prev.as_slice(), cur.as_slice()) >= 0 {
            assert(!lex_lt(row_key(k - 1), row_key(k as int)));
            return false;
        }
        proof {
            assert forall|i: int, j: int| 0 <= i < j < k + 1 implies lex_lt(#[trigger] row_key(i), #[trigger] row_key(j)) by {
                if j == k && i < k - 1 {
                    lemma_lex_trans(row_key(i), row_key(k - 1), row_key(k as int));
                }
            }
        }
        prev = cur;
        k += 1;
    }
    true
}

proof fn lemma_bsearch_finds(needle: Seq<u8>, lo: int, hi: int, i: int)
    requires
        table_sorted(),
        0 <= lo <= i < hi <= spec_table().len(),
        row_key(i) == needle,
    ensures
        bsearch(needle, lo, hi) == Some(i),
    decreases hi - lo,
{
    let mid = (lo + hi) / 2;
    let t = row_key(mid);
    lemma_lex_irreflexive(needle);
    lemma_lex_total(t, needle);
    if t == needle {
        if mid < i {
            assert(lex_lt(row_key(mid), row_key(i)));
        } else if i < mid {
            assert(lex_lt(row_key(i), row_key(mid)));
        }
    } else if lex_lt(t, needle) {
        if mid > i {
            assert(lex_lt(row_key(i), row_key(mid)));
        }
        lemma_bsearch_finds(needle, mid + 1, hi, i);
    } else {
        if mid < i {
            assert(lex_lt(row_key(mid), row_key(i)));
        }
        lemma_bsearch_finds(needle, lo, mid, i);
    }
}

/// Every row is found by a name equal to its title up
/// to ASCII letter case: binary search misses nothing.
pub proof fn law_lookup_finds_every_row(name: Seq<char>, i: int)
    requires
        0 <= i < spec_table().len(),
        lower_seq(encode_utf8(name)) == row_key(i),
    ensures
        lookup_chars(name) == Some(i),
{
    law_table_sorted();
    lemma_bsearch_finds(row_key(i), 0, spec_table().len() as int, i);
}

proof fn lemma_lex_lt_at(a: Seq<u8>, b: Seq<u8>, p: int)
    requires
        0 <= p < b.len(),
        p <= a.len(),
        forall|i: int| 0 <= i < p ==> a[i] == b[i],
        p == a.len() || a[p] < b[p],
    ensures
        lex_lt(a, b),
    decreases p,
{
    if p > 0 {
        lemma_lex_lt_at(a.drop_first(), b.drop_first(), p - 1);
    }
}

proof fn lemma_rows_ascend_0(k: int)
    requires
        0 <= k < 8,
    ensures
        lex_lt(row_key(k), row_key(k + 1)),
{
    if k == 0 {
        reveal_strlit("addtocounter");
        reveal_strlit("algorithm2e");
        is_ascii_chars_encode_utf8("addtocounter"@);
        is_ascii_chars_encode_utf8("algorithm2e"@);
        assert(spec_table()[0].title == "addtocounter");
        assert(spec_table()[1].title == "algorithm2e");
        lemma_lex_lt_at(row_key(0), row_key(1), 1);
    } else if k == 1 {
        reveal_strlit("algorithm2e");
        reveal_strlit("algorithmicx");
        is_ascii_chars_encode_utf8("algorithm2e"@);
        is_ascii_chars_encode_utf8("algorithmicx"@);
        assert(spec_table()[1].title == "algorithm2e");
        assert(spec_table()[2].title == "algorithmicx");
        lemma_lex_lt_at(row_key(1), row_key(2), 9);
    } else if k == 2 {
        reveal_strlit("algorithmicx");
        reveal_strlit("alpha");
        is_ascii_chars_encode_utf8("algorithmicx"@);
        is_ascii_chars_encode_utf8("alpha"@);
        assert(spec_table()[2].title == "algorithmicx");
        assert(spec_table()[3].title == "alpha");
        lemma_lex_lt_at(row_key(2), row_key(3), 2);
    } else if k == 3 {
        reveal_strlit("alpha");
        reveal_strlit("amsfonts");
        is_ascii_chars_encode_utf8("alpha"@);
        is_ascii_chars_encode_utf8("amsfonts"@);
        assert(spec_table()[3].title == "alpha");
        assert(spec_table()[4].title == "amsfonts");
        lemma_lex_lt_at(row_key(3), row_key(4), 1);
    } else if k == 4 {
        reveal_strlit("amsfonts");
        reveal_strlit("amsmath");
        is_ascii_chars_encode_utf8("amsfonts"@);
        is_ascii_chars_encode_utf8("amsmath"@);
        assert(spec_table()[4].title == "amsfonts");
        assert(spec_table()[5].title == "amsmath");
        lemma_lex_lt_at(row_key(4), row_key(5), 3);
    } else if k == 5 {
        reveal_strlit("amsmath");
        reveal_strlit("amssymb");
        is_ascii_chars_encode_utf8("amsmath"@);
        is_ascii_chars_encode_utf8("amssymb"@);
        assert(spec_table()[5].title == "amsmath");
        assert(spec_table()[6].title == "amssymb");
        lemma_lex_lt_at(row_key(5), row_key(6), 3);
    } else if k == 6 {
        reveal_strlit("amssymb");
        reveal_strlit("appendix");
        is_ascii_chars_encode_utf8("amssymb"@);
        is_ascii_chars_encode_utf8("appendix"@);
        assert(spec_table()[6].title == "amssymb");
        assert(spec_table()[7].title == "appendix");
        lemma_lex_lt_at(row_key(6), row_key(7), 1);
    } else if k == 7 {
        reveal_strlit("appendix");
        reveal_strlit("author");
        is_ascii_chars_encode_utf8("appendix"@);
        is_ascii_chars_encode_utf8("author"@);
        assert(spec_table()[7].title == "appendix");
        assert(spec_table()[8].title == "author");
        lemma_lex_lt_at(row_key(7), row_key(8), 1);
    }
}

proof fn lemma_rows_ascend_1(k: int)
    requires
        8 <= k < 16,
    ensures
        lex_lt(row_key(k), row_key(k + 1)),
{
    if k == 8 {
        reveal_strlit("author");
        reveal_strlit("autoref");
        is_ascii_chars_encode_utf8("author"@);
        is_ascii_chars_encode_utf8("autoref"@);
        assert(spec_table()[8].title == "author");
        assert(spec_table()[9].title == "autoref");
        lemma_lex_lt_at(row_key(8), row_key(9), 3);
    } else if k == 9 {
        reveal_strlit("autoref");
        reveal_strlit("beta");
        is_ascii_chars_encode_utf8("autoref"@);
        is_ascii_chars_encode_utf8("beta"@);
        assert(spec_table()[9].title == "autoref");
        assert(spec_table()[10].title == "beta");
        lemma_lex_lt_at(row_key(9), row_key(10), 0);
    } else if k == 10 {
        reveal_strlit("beta");
        reveal_strlit("biblatex");
        is_ascii_chars_encode_utf8("beta"@);
        is_ascii_chars_encode_utf8("biblatex"@);
        assert(spec_table()[10].title == "beta");
        assert(spec_table()[11].title == "biblatex");
        lemma_lex_lt_at(row_key(10), row_key(11), 1);
    } else if k == 11 {
        reveal_strlit("biblatex");
        reveal_strlit("bibliography");
        is_ascii_chars_encode_utf8("biblatex"@);
        is_ascii_chars_encode_utf8("bibliography"@);
        assert(spec_table()[11].title == "biblatex");
        assert(spec_table()[12].title == "bibliography");
        lemma_lex_lt_at(row_key(11), row_key(12), 4);
    } else if k == 12 {
        reveal_strlit("bibliography");
        reveal_strlit("bibliographystyle");
        is_ascii_chars_encode_utf8("bibliography"@);
        is_ascii_chars_encode_utf8("bibliographystyle"@);
        assert(spec_table()[12].title == "bibliography");
        assert(spec_table()[13].title == "bibliographystyle");
        lemma_lex_lt_at(row_key(12), row_key(13), 12);
    } else if k == 13 {
        reveal_strlit("bibliographystyle");
        reveal_strlit("bm");
        is_ascii_chars_encode_utf8("bibliographystyle"@);
        is_ascii_chars_encode_utf8("bm"@);
        assert(spec_table()[13].title == "bibliographystyle");
        assert(spec_table()[14].title == "bm");
        lemma_lex_lt_at(row_key(13), row_key(14), 1);
    } else if k == 14 {
        reveal_strlit("bm");
        reveal_strlit("booktabs");
        is_ascii_chars_encode_utf8("bm"@);
        is_ascii_chars_encode_utf8("booktabs"@);
        assert(spec_table()[14].title == "bm");
        assert(spec_table()[15].title == "booktabs");
        lemma_lex_lt_at(row_key(14), row_key(15), 1);
    } else if k == 15 {
        reveal_strlit("booktabs");
        reveal_strlit("caption");
        is_ascii_chars_encode_utf8("booktabs"@);
        is_ascii_chars_encode_utf8("caption"@);
        assert(spec_table()[15].title == "booktabs");
        assert(spec_table()[16].title == "caption");
        lemma_lex_lt_at(row_key(15), row_key(16), 0);
    }
}

proof fn lemma_rows_ascend_2(k: int)
    requires
        16 <= k < 24,
    ensures
        lex_lt(row_key(k), row_key(k + 1)),
{
    if k == 16 {
        reveal_strlit("caption");
        reveal_strlit("cdot");
        is_ascii_chars_encode_utf8("caption"@);
        is_ascii_chars_encode_utf8("cdot"@);
        assert(spec_table()[16].title == "caption");
        assert(spec_table()[17].title == "cdot");
        lemma_lex_lt_at(row_key(16), row_key(17), 1);
    } else if k == 17 {
        reveal_strlit("cdot");
        reveal_strlit("cdots");
        is_ascii_chars_encode_utf8("cdot"@);
        is_ascii_chars_encode_utf8("cdots"@);
        assert(spec_table()[17].title == "cdot");
        assert(spec_table()[18].title == "cdots");
        lemma_lex_lt_at(row_key(17), row_key(18), 4);
    } else if k == 18 {
        reveal_strlit("cdots");
        reveal_strlit("chapter");
        is_ascii_chars_encode_utf8("cdots"@);
        is_ascii_chars_encode_utf8("chapter"@);
        assert(spec_table()[18].title == "cdots");
        assert(spec_table()[19].title == "chapter");
        lemma_lex_lt_at(row_key(18), row_key(19), 1);
    } else if k == 19 {
        reveal_strlit("chapter");
        reveal_strlit("chi");
        is_ascii_chars_encode_utf8("chapter"@);
        is_ascii_chars_encode_utf8("chi"@);
        assert(spec_table()[19].title == "chapter");
        assert(spec_table()[20].title == "chi");
        lemma_lex_lt_at(row_key(19), row_key(20), 2);
    } else if k == 20 {
        reveal_strlit("chi");
        reveal_strlit("cite");
        is_ascii_chars_encode_utf8("chi"@);
        is_ascii_chars_encode_utf8("cite"@);
        assert(spec_table()[20].title == "chi");
        assert(spec_table()[21].title == "cite");
        lemma_lex_lt_at(row_key(20), row_key(21), 1);
    } else if k == 21 {
        reveal_strlit("cite");
        reveal_strlit("citep");
        is_ascii_chars_encode_utf8("cite"@);
        is_ascii_chars_encode_utf8("citep"@);
        assert(spec_table()[21].title == "cite");
        assert(spec_table()[22].title == "citep");
        lemma_lex_lt_at(row_key(21), row_key(22), 4);
    } else if k == 22 {
        reveal_strlit("citep");
        reveal_strlit("citet");
        is_ascii_chars_encode_utf8("citep"@);
        is_ascii_chars_encode_utf8("citet"@);
        assert(spec_table()[22].title == "citep");
        assert(spec_table()[23].title == "citet");
        lemma_lex_lt_at(row_key(22), row_key(23), 4);
    } else if k == 23 {
        reveal_strlit("citet");
        reveal_strlit("clearpage");
        is_ascii_chars_encode_utf8("citet"@);
        is_ascii_chars_encode_utf8("clearpage"@);
        assert(spec_table()[23].title == "citet");
        assert(spec_table()[24].title == "clearpage");
        lemma_lex_lt_at(row_key(23), row_key(24), 1);
    }
}

proof fn lemma_rows_ascend_3(k: int)
    requires
        24 <= k < 32,
    ensures
        lex_lt(row_key(k), row_key(k + 1)),
{
    if k == 24 {
        reveal_strlit("clearpage");
        reveal_strlit("cref");
        is_ascii_chars_encode_utf8("clearpage"@);
        is_ascii_chars_encode_utf8("cref"@);
        assert(spec_table()[24].title == "clearpage");
        assert(spec_table()[25].title == "cref");
        lemma_lex_lt_at(row_key(24), row_key(25), 1);
    } else if k == 25 {
        reveal_strlit("cref");
        reveal_strlit("date");
        is_ascii_chars_encode_utf8("cref"@);
        is_ascii_chars_encode_utf8("date"@);
        assert(spec_table()[25].title == "cref");
        assert(spec_table()[26].title == "date");
        lemma_lex_lt_at(row_key(25), row_key(26), 0);
    } else if k == 26 {
        reveal_strlit("date");
        reveal_strlit("delta");
        is_ascii_chars_encode_utf8("date"@);
        is_ascii_chars_encode_utf8("delta"@);
        assert(spec_table()[26].title == "date");
        assert(spec_table()[27].title == "delta");
        lemma_lex_lt_at(row_key(26), row_key(27), 1);
    } else if k == 27 {
        reveal_strlit("delta");
        reveal_strlit("documentclass");
        is_ascii_chars_encode_utf8("delta"@);
        is_ascii_chars_encode_utf8("documentclass"@);
        assert(spec_table()[27].title == "delta");
        assert(spec_table()[28].title == "documentclass");
        lemma_lex_lt_at(row_key(27), row_key(28), 1);
    } else if k == 28 {
        reveal_strlit("documentclass");
        reveal_strlit("dots");
        is_ascii_chars_encode_utf8("documentclass"@);
        is_ascii_chars_encode_utf8("dots"@);
        assert(spec_table()[28].title == "documentclass");
        assert(spec_table()[29].title == "dots");
        lemma_lex_lt_at(row_key(28), row_key(29), 2);
    } else if k == 29 {
        reveal_strlit("dots");
        reveal_strlit("emph");
        is_ascii_chars_encode_utf8("dots"@);
        is_ascii_chars_encode_utf8("emph"@);
        assert(spec_table()[29].title == "dots");
        assert(spec_table()[30].title == "emph");
        lemma_lex_lt_at(row_key(29), row_key(30), 0);
    } else if k == 30 {
        reveal_strlit("emph");
        reveal_strlit("end");
        is_ascii_chars_encode_utf8("emph"@);
        is_ascii_chars_encode_utf8("end"@);
        assert(spec_table()[30].title == "emph");
        assert(spec_table()[31].title == "end");
        lemma_lex_lt_at(row_key(30), row_key(31), 1);
    } else if k == 31 {
        reveal_strlit("end");
        reveal_strlit("epsilon");
        is_ascii_chars_encode_utf8("end"@);
        is_ascii_chars_encode_utf8("epsilon"@);
        assert(spec_table()[31].title == "end");
        assert(spec_table()[32].title == "epsilon");
        lemma_lex_lt_at(row_key(31), row_key(32), 1);
    }
}

proof fn lemma_rows_ascend_4(k: int)
    requires
        32 <= k < 40,
    ensures
        lex_lt(row_key(k), row_key(k + 1)),
{
    if k == 32 {
        reveal_strlit("epsilon");
        reveal_strlit("eqref");
        is_ascii_chars_encode_utf8("epsilon"@);
        is_ascii_chars_encode_utf8("eqref"@);
        assert(spec_table()[32].title == "epsilon");
        assert(spec_table()[33].title == "eqref");
        lemma_lex_lt_at(row_key(32), row_key(33), 1);
    } else if k == 33 {
        reveal_strlit("eqref");
        reveal_strlit("eta");
        is_ascii_chars_encode_utf8("eqref"@);
        is_ascii_chars_encode_utf8("eta"@);
        assert(spec_table()[33].title == "eqref");
        assert(spec_table()[34].title == "eta");
        lemma_lex_lt_at(row_key(33), row_key(34), 1);
    } else if k == 34 {
        reveal_strlit("eta");
        reveal_strlit("fontenc");
        is_ascii_chars_encode_utf8("eta"@);
        is_ascii_chars_encode_utf8("fontenc"@);
        assert(spec_table()[34].title == "eta");
        assert(spec_table()[35].title == "fontenc");
        lemma_lex_lt_at(row_key(34), row_key(35), 0);
    } else if k == 35 {
        reveal_strlit("fontenc");
        reveal_strlit("footnote");
        is_ascii_chars_encode_utf8("fontenc"@);
        is_ascii_chars_encode_utf8("footnote"@);
        assert(spec_table()[35].title == "fontenc");
        assert(spec_table()[36].title == "footnote");
        lemma_lex_lt_at(row_key(35), row_key(36), 2);
    } else if k == 36 {
        reveal_strlit("footnote");
        reveal_strlit("frac");
        is_ascii_chars_encode_utf8("footnote"@);
        is_ascii_chars_encode_utf8("frac"@);
        assert(spec_table()[36].title == "footnote");
        assert(spec_table()[37].title == "frac");
        lemma_lex_lt_at(row_key(36), row_key(37), 1);
    } else if k == 37 {
        reveal_strlit("frac");
        reveal_strlit("gamma");
        is_ascii_chars_encode_utf8("frac"@);
        is_ascii_chars_encode_utf8("gamma"@);
        assert(spec_table()[37].title == "frac");
        assert(spec_table()[38].title == "gamma");
        lemma_lex_lt_at(row_key(37), row_key(38), 0);
    } else if k == 38 {
        reveal_strlit("gamma");
        reveal_strlit("geometry");
        is_ascii_chars_encode_utf8("gamma"@);
        is_ascii_chars_encode_utf8("geometry"@);
        assert(spec_table()[38].title == "gamma");
        assert(spec_table()[39].title == "geometry");
        lemma_lex_lt_at(row_key(38), row_key(39), 1);
    } else if k == 39 {
        reveal_strlit("geometry");
        reveal_strlit("glossaries");
        is_ascii_chars_encode_utf8("geometry"@);
        is_ascii_chars_encode_utf8("glossaries"@);
        assert(spec_table()[39].title == "geometry");
        assert(spec_table()[40].title == "glossaries");
        lemma_lex_lt_at(row_key(39), row_key(40), 1);
    }
}

proof fn lemma_rows_ascend_5(k: int)
    requires
        40 <= k < 48,
    ensures
        lex_lt(row_key(k), row_key(k + 1)),
{
    if k == 40 {
        reveal_strlit("glossaries");
        reveal_strlit("graphicx");
        is_ascii_chars_encode_utf8("glossaries"@);
        is_ascii_chars_encode_utf8("graphicx"@);
        assert(spec_table()[40].title == "glossaries");
        assert(spec_table()[41].title == "graphicx");
        lemma_lex_lt_at(row_key(40), row_key(41), 1);
    } else if k == 41 {
        reveal_strlit("graphicx");
        reveal_strlit("href");
        is_ascii_chars_encode_utf8("graphicx"@);
        is_ascii_chars_encode_utf8("href"@);
        assert(spec_table()[41].title == "graphicx");
        assert(spec_table()[42].title == "href");
        lemma_lex_lt_at(row_key(41), row_key(42), 0);
    } else if k == 42 {
        reveal_strlit("href");
        reveal_strlit("hyperref");
        is_ascii_chars_encode_utf8("href"@);
        is_ascii_chars_encode_utf8("hyperref"@);
        assert(spec_table()[42].title == "href");
        assert(spec_table()[43].title == "hyperref");
        lemma_lex_lt_at(row_key(42), row_key(43), 1);
    } else if k == 43 {
        reveal_strlit("hyperref");
        reveal_strlit("include");
        is_ascii_chars_encode_utf8("hyperref"@);
        is_ascii_chars_encode_utf8("include"@);
        assert(spec_table()[43].title == "hyperref");
        assert(spec_table()[44].title == "include");
        lemma_lex_lt_at(row_key(43), row_key(44), 0);
    } else if k == 44 {
        reveal_strlit("include");
        reveal_strlit("infty");
        is_ascii_chars_encode_utf8("include"@);
        is_ascii_chars_encode_utf8("infty"@);
        assert(spec_table()[44].title == "include");
        assert(spec_table()[45].title == "infty");
        lemma_lex_lt_at(row_key(44), row_key(45), 2);
    } else if k == 45 {
        reveal_strlit("infty");
        reveal_strlit("input");
        is_ascii_chars_encode_utf8("infty"@);
        is_ascii_chars_encode_utf8("input"@);
        assert(spec_table()[45].title == "infty");
        assert(spec_table()[46].title == "input");
        lemma_lex_lt_at(row_key(45), row_key(46), 2);
    } else if k == 46 {
        reveal_strlit("input");
        reveal_strlit("inputenc");
        is_ascii_chars_encode_utf8("input"@);
        is_ascii_chars_encode_utf8("inputenc"@);
        assert(spec_table()[46].title == "input");
        assert(spec_table()[47].title == "inputenc");
        lemma_lex_lt_at(row_key(46), row_key(47), 5);
    } else if k == 47 {
        reveal_strlit("inputenc");
        reveal_strlit("int");
        is_ascii_chars_encode_utf8("inputenc"@);
        is_ascii_chars_encode_utf8("int"@);
        assert(spec_table()[47].title == "inputenc");
        assert(spec_table()[48].title == "int");
        lemma_lex_lt_at(row_key(47), row_key(48), 2);
    }
}

proof fn lemma_rows_ascend_6(k: int)
    requires
        48 <= k < 56,
    ensures
        lex_lt(row_key(k), row_key(k + 1)),
{
    if k == 48 {
        reveal_strlit("int");
        reveal_strlit("item");
        is_ascii_chars_encode_utf8("int"@);
        is_ascii_chars_encode_utf8("item"@);
        assert(spec_table()[48].title == "int");
        assert(spec_table()[49].title == "item");
        lemma_lex_lt_at(row_key(48), row_key(49), 1);
    } else if k == 49 {
        reveal_strlit("item");
        reveal_strlit("kappa");
        is_ascii_chars_encode_utf8("item"@);
        is_ascii_chars_encode_utf8("kappa"@);
        assert(spec_table()[49].title == "item");
        assert(spec_table()[50].title == "kappa");
        lemma_lex_lt_at(row_key(49), row_key(50), 0);
    } else if k == 50 {
        reveal_strlit("kappa");
        reveal_strlit("kpsewhich");
        is_ascii_chars_encode_utf8("kappa"@);
        is_ascii_chars_encode_utf8("kpsewhich"@);
        assert(spec_table()[50].title == "kappa");
        assert(spec_table()[51].title == "kpsewhich");
        lemma_lex_lt_at(row_key(50), row_key(51), 1);
    } else if k == 51 {
        reveal_strlit("kpsewhich");
        reveal_strlit("label");
        is_ascii_chars_encode_utf8("kpsewhich"@);
        is_ascii_chars_encode_utf8("label"@);
        assert(spec_table()[51].title == "kpsewhich");
        assert(spec_table()[52].title == "label");
        lemma_lex_lt_at(row_key(51), row_key(52), 0);
    } else if k == 52 {
        reveal_strlit("label");
        reveal_strlit("ldots");
        is_ascii_chars_encode_utf8("label"@);
        is_ascii_chars_encode_utf8("ldots"@);
        assert(spec_table()[52].title == "label");
        assert(spec_table()[53].title == "ldots");
        lemma_lex_lt_at(row_key(52), row_key(53), 1);
    } else if k == 53 {
        reveal_strlit("ldots");
        reveal_strlit("Leftarrow");
        is_ascii_chars_encode_utf8("ldots"@);
        is_ascii_chars_encode_utf8("Leftarrow"@);
        assert(spec_table()[53].title == "ldots");
        assert(spec_table()[54].title == "Leftarrow");
        lemma_lex_lt_at(row_key(53), row_key(54), 1);
    } else if k == 54 {
        reveal_strlit("Leftarrow");
        reveal_strlit("Leftrightarrow");
        is_ascii_chars_encode_utf8("Leftarrow"@);
        is_ascii_chars_encode_utf8("Leftrightarrow"@);
        assert(spec_table()[54].title == "Leftarrow");
        assert(spec_table()[55].title == "Leftrightarrow");
        lemma_lex_lt_at(row_key(54), row_key(55), 4);
    } else if k == 55 {
        reveal_strlit("Leftrightarrow");
        reveal_strlit("leq");
        is_ascii_chars_encode_utf8("Leftrightarrow"@);
        is_ascii_chars_encode_utf8("leq"@);
        assert(spec_table()[55].title == "Leftrightarrow");
        assert(spec_table()[56].title == "leq");
        lemma_lex_lt_at(row_key(55), row_key(56), 2);
    }
}

proof fn lemma_rows_ascend_7(k: int)
    requires
        56 <= k < 64,
    ensures
        lex_lt(row_key(k), row_key(k + 1)),
{
    if k == 56 {
        reveal_strlit("leq");
        reveal_strlit("listings");
        is_ascii_chars_encode_utf8("leq"@);
        is_ascii_chars_encode_utf8("listings"@);
        assert(spec_table()[56].title == "leq");
        assert(spec_table()[57].title == "listings");
        lemma_lex_lt_at(row_key(56), row_key(57), 1);
    } else if k == 57 {
        reveal_strlit("listings");
        reveal_strlit("lmodern");
        is_ascii_chars_encode_utf8("listings"@);
        is_ascii_chars_encode_utf8("lmodern"@);
        assert(spec_table()[57].title == "listings");
        assert(spec_table()[58].title == "lmodern");
        lemma_lex_lt_at(row_key(57), row_key(58), 1);
    } else if k == 58 {
        reveal_strlit("lmodern");
        reveal_strlit("mathbf");
        is_ascii_chars_encode_utf8("lmodern"@);
        is_ascii_chars_encode_utf8("mathbf"@);
        assert(spec_table()[58].title == "lmodern");
        assert(spec_table()[59].title == "mathbf");
        lemma_lex_lt_at(row_key(58), row_key(59), 0);
    } else if k == 59 {
        reveal_strlit("mathbf");
        reveal_strlit("mathcal");
        is_ascii_chars_encode_utf8("mathbf"@);
        is_ascii_chars_encode_utf8("mathcal"@);
        assert(spec_table()[59].title == "mathbf");
        assert(spec_table()[60].title == "mathcal");
        lemma_lex_lt_at(row_key(59), row_key(60), 4);
    } else if k == 60 {
        reveal_strlit("mathcal");
        reveal_strlit("mathfrak");
        is_ascii_chars_encode_utf8("mathcal"@);
        is_ascii_chars_encode_utf8("mathfrak"@);
        assert(spec_table()[60].title == "mathcal");
        assert(spec_table()[61].title == "mathfrak");
        lemma_lex_lt_at(row_key(60), row_key(61), 4);
    } else if k == 61 {
        reveal_strlit("mathfrak");
        reveal_strlit("mathit");
        is_ascii_chars_encode_utf8("mathfrak"@);
        is_ascii_chars_encode_utf8("mathit"@);
        assert(spec_table()[61].title == "mathfrak");
        assert(spec_table()[62].title == "mathit");
        lemma_lex_lt_at(row_key(61), row_key(62), 4);
    } else if k == 62 {
        reveal_strlit("mathit");
        reveal_strlit("mathrm");
        is_ascii_chars_encode_utf8("mathit"@);
        is_ascii_chars_encode_utf8("mathrm"@);
        assert(spec_table()[62].title == "mathit");
        assert(spec_table()[63].title == "mathrm");
        lemma_lex_lt_at(row_key(62), row_key(63), 4);
    } else if k == 63 {
        reveal_strlit("mathrm");
        reveal_strlit("mathsf");
        is_ascii_chars_encode_utf8("mathrm"@);
        is_ascii_chars_encode_utf8("mathsf"@);
        assert(spec_table()[63].title == "mathrm");
        assert(spec_table()[64].title == "mathsf");
        lemma_lex_lt_at(row_key(63), row_key(64), 4);
    }
}

proof fn lemma_rows_ascend_8(k: int)
    requires
        64 <= k < 72,
    ensures
        lex_lt(row_key(k), row_key(k + 1)),
{
    if k == 64 {
        reveal_strlit("mathsf");
        reveal_strlit("mathtools");
        is_ascii_chars_encode_utf8("mathsf"@);
        is_ascii_chars_encode_utf8("mathtools"@);
        assert(spec_table()[64].title == "mathsf");
        assert(spec_table()[65].title == "mathtools");
        lemma_lex_lt_at(row_key(64), row_key(65), 4);
    } else if k == 65 {
        reveal_strlit("mathtools");
        reveal_strlit("minted");
        is_ascii_chars_encode_utf8("mathtools"@);
        is_ascii_chars_encode_utf8("minted"@);
        assert(spec_table()[65].title == "mathtools");
        assert(spec_table()[66].title == "minted");
        lemma_lex_lt_at(row_key(65), row_key(66), 1);
    } else if k == 66 {
        reveal_strlit("minted");
        reveal_strlit("mu");
        is_ascii_chars_encode_utf8("minted"@);
        is_ascii_chars_encode_utf8("mu"@);
        assert(spec_table()[66].title == "minted");
        assert(spec_table()[67].title == "mu");
        lemma_lex_lt_at(row_key(66), row_key(67), 1);
    } else if k == 67 {
        reveal_strlit("mu");
        reveal_strlit("nabla");
        is_ascii_chars_encode_utf8("mu"@);
        is_ascii_chars_encode_utf8("nabla"@);
        assert(spec_table()[67].title == "mu");
        assert(spec_table()[68].title == "nabla");
        lemma_lex_lt_at(row_key(67), row_key(68), 0);
    } else if k == 68 {
        reveal_strlit("nabla");
        reveal_strlit("nameref");
        is_ascii_chars_encode_utf8("nabla"@);
        is_ascii_chars_encode_utf8("nameref"@);
        assert(spec_table()[68].title == "nabla");
        assert(spec_table()[69].title == "nameref");
        lemma_lex_lt_at(row_key(68), row_key(69), 2);
    } else if k == 69 {
        reveal_strlit("nameref");
        reveal_strlit("natbib");
        is_ascii_chars_encode_utf8("nameref"@);
        is_ascii_chars_encode_utf8("natbib"@);
        assert(spec_table()[69].title == "nameref");
        assert(spec_table()[70].title == "natbib");
        lemma_lex_lt_at(row_key(69), row_key(70), 2);
    } else if k == 70 {
        reveal_strlit("natbib");
        reveal_strlit("newcommand");
        is_ascii_chars_encode_utf8("natbib"@);
        is_ascii_chars_encode_utf8("newcommand"@);
        assert(spec_table()[70].title == "natbib");
        assert(spec_table()[71].title == "newcommand");
        lemma_lex_lt_at(row_key(70), row_key(71), 1);
    } else if k == 71 {
        reveal_strlit("newcommand");
        reveal_strlit("newpage");
        is_ascii_chars_encode_utf8("newcommand"@);
        is_ascii_chars_encode_utf8("newpage"@);
        assert(spec_table()[71].title == "newcommand");
        assert(spec_table()[72].title == "newpage");
        lemma_lex_lt_at(row_key(71), row_key(72), 3);
    }
}

proof fn lemma_rows_ascend_9(k: int)
    requires
        72 <= k < 80,
    ensures
        lex_lt(row_key(k), row_key(k + 1)),
{
    if k == 72 {
        reveal_strlit("newpage");
        reveal_strlit("noindent");
        is_ascii_chars_encode_utf8("newpage"@);
        is_ascii_chars_encode_utf8("noindent"@);
        assert(spec_table()[72].title == "newpage");
        assert(spec_table()[73].title == "noindent");
        lemma_lex_lt_at(row_key(72), row_key(73), 1);
    } else if k == 73 {
        reveal_strlit("noindent");
        reveal_strlit("nu");
        is_ascii_chars_encode_utf8("noindent"@);
        is_ascii_chars_encode_utf8("nu"@);
        assert(spec_table()[73].title == "noindent");
        assert(spec_table()[74].title == "nu");
        lemma_lex_lt_at(row_key(73), row_key(74), 1);
    } else if k == 74 {
        reveal_strlit("nu");
        reveal_strlit("omega");
        is_ascii_chars_encode_utf8("nu"@);
        is_ascii_chars_encode_utf8("omega"@);
        assert(spec_table()[74].title == "nu");
        assert(spec_table()[75].title == "omega");
        lemma_lex_lt_at(row_key(74), row_key(75), 0);
    } else if k == 75 {
        reveal_strlit("omega");
        reveal_strlit("pagebreak");
        is_ascii_chars_encode_utf8("omega"@);
        is_ascii_chars_encode_utf8("pagebreak"@);
        assert(spec_table()[75].title == "omega");
        assert(spec_table()[76].title == "pagebreak");
        lemma_lex_lt_at(row_key(75), row_key(76), 0);
    } else if k == 76 {
        reveal_strlit("pagebreak");
        reveal_strlit("pageref");
        is_ascii_chars_encode_utf8("pagebreak"@);
        is_ascii_chars_encode_utf8("pageref"@);
        assert(spec_table()[76].title == "pagebreak");
        assert(spec_table()[77].title == "pageref");
        lemma_lex_lt_at(row_key(76), row_key(77), 4);
    } else if k == 77 {
        reveal_strlit("pageref");
        reveal_strlit("par");
        is_ascii_chars_encode_utf8("pageref"@);
        is_ascii_chars_encode_utf8("par"@);
        assert(spec_table()[77].title == "pageref");
        assert(spec_table()[78].title == "par");
        lemma_lex_lt_at(row_key(77), row_key(78), 2);
    } else if k == 78 {
        reveal_strlit("par");
        reveal_strlit("paragraph");
        is_ascii_chars_encode_utf8("par"@);
        is_ascii_chars_encode_utf8("paragraph"@);
        assert(spec_table()[78].title == "par");
        assert(spec_table()[79].title == "paragraph");
        lemma_lex_lt_at(row_key(78), row_key(79), 3);
    } else if k == 79 {
        reveal_strlit("paragraph");
        reveal_strlit("partial");
        is_ascii_chars_encode_utf8("paragraph"@);
        is_ascii_chars_encode_utf8("partial"@);
        assert(spec_table()[79].title == "paragraph");
        assert(spec_table()[80].title == "partial");
        lemma_lex_lt_at(row_key(79), row_key(80), 3);
    }
}

proof fn lemma_rows_ascend_10(k: int)
    requires
        80 <= k < 88,
    ensures
        lex_lt(row_key(k), row_key(k + 1)),
{
    if k == 80 {
        reveal_strlit("partial");
        reveal_strlit("pdfpages");
        is_ascii_chars_encode_utf8("partial"@);
        is_ascii_chars_encode_utf8("pdfpages"@);
        assert(spec_table()[80].title == "partial");
        assert(spec_table()[81].title == "pdfpages");
        lemma_lex_lt_at(row_key(80), row_key(81), 1);
    } else if k == 81 {
        reveal_strlit("pdfpages");
        reveal_strlit("phi");
        is_ascii_chars_encode_utf8("pdfpages"@);
        is_ascii_chars_encode_utf8("phi"@);
        assert(spec_table()[81].title == "pdfpages");
        assert(spec_table()[82].title == "phi");
        lemma_lex_lt_at(row_key(81), row_key(82), 1);
    } else if k == 82 {
        reveal_strlit("phi");
        reveal_strlit("pi");
        is_ascii_chars_encode_utf8("phi"@);
        is_ascii_chars_encode_utf8("pi"@);
        assert(spec_table()[82].title == "phi");
        assert(spec_table()[83].title == "pi");
        lemma_lex_lt_at(row_key(82), row_key(83), 1);
    } else if k == 83 {
        reveal_strlit("pi");
        reveal_strlit("pm");
        is_ascii_chars_encode_utf8("pi"@);
        is_ascii_chars_encode_utf8("pm"@);
        assert(spec_table()[83].title == "pi");
        assert(spec_table()[84].title == "pm");
        lemma_lex_lt_at(row_key(83), row_key(84), 1);
    } else if k == 84 {
        reveal_strlit("pm");
        reveal_strlit("prod");
        is_ascii_chars_encode_utf8("pm"@);
        is_ascii_chars_encode_utf8("prod"@);
        assert(spec_table()[84].title == "pm");
        assert(spec_table()[85].title == "prod");
        lemma_lex_lt_at(row_key(84), row_key(85), 1);
    } else if k == 85 {
        reveal_strlit("prod");
        reveal_strlit("providecommand");
        is_ascii_chars_encode_utf8("prod"@);
        is_ascii_chars_encode_utf8("providecommand"@);
        assert(spec_table()[85].title == "prod");
        assert(spec_table()[86].title == "providecommand");
        lemma_lex_lt_at(row_key(85), row_key(86), 3);
    } else if k == 86 {
        reveal_strlit("providecommand");
        reveal_strlit("psi");
        is_ascii_chars_encode_utf8("providecommand"@);
        is_ascii_chars_encode_utf8("psi"@);
        assert(spec_table()[86].title == "providecommand");
        assert(spec_table()[87].title == "psi");
        lemma_lex_lt_at(row_key(86), row_key(87), 1);
    } else if k == 87 {
        reveal_strlit("psi");
        reveal_strlit("qquad");
        is_ascii_chars_encode_utf8("psi"@);
        is_ascii_chars_encode_utf8("qquad"@);
        assert(spec_table()[87].title == "psi");
        assert(spec_table()[88].title == "qquad");
        lemma_lex_lt_at(row_key(87), row_key(88), 0);
    }
}

proof fn lemma_rows_ascend_11(k: int)
    requires
        88 <= k < 96,
    ensures
        lex_lt(row_key(k), row_key(k + 1)),
{
    if k == 88 {
        reveal_strlit("qquad");
        reveal_strlit("quad");
        is_ascii_chars_encode_utf8("qquad"@);
        is_ascii_chars_encode_utf8("quad"@);
        assert(spec_table()[88].title == "qquad");
        assert(spec_table()[89].title == "quad");
        lemma_lex_lt_at(row_key(88), row_key(89), 1);
    } else if k == 89 {
        reveal_strlit("quad");
        reveal_strlit("ref");
        is_ascii_chars_encode_utf8("quad"@);
        is_ascii_chars_encode_utf8("ref"@);
        assert(spec_table()[89].title == "quad");
        assert(spec_table()[90].title == "ref");
        lemma_lex_lt_at(row_key(89), row_key(90), 0);
    } else if k == 90 {
        reveal_strlit("ref");
        reveal_strlit("renewcommand");
        is_ascii_chars_encode_utf8("ref"@);
        is_ascii_chars_encode_utf8("renewcommand"@);
        assert(spec_table()[90].title == "ref");
        assert(spec_table()[91].title == "renewcommand");
        lemma_lex_lt_at(row_key(90), row_key(91), 2);
    } else if k == 91 {
        reveal_strlit("renewcommand");
        reveal_strlit("RequirePackage");
        is_ascii_chars_encode_utf8("renewcommand"@);
        is_ascii_chars_encode_utf8("RequirePackage"@);
        assert(spec_table()[91].title == "renewcommand");
        assert(spec_table()[92].title == "RequirePackage");
        lemma_lex_lt_at(row_key(91), row_key(92), 2);
    } else if k == 92 {
        reveal_strlit("RequirePackage");
        reveal_strlit("rho");
        is_ascii_chars_encode_utf8("RequirePackage"@);
        is_ascii_chars_encode_utf8("rho"@);
        assert(spec_table()[92].title == "RequirePackage");
        assert(spec_table()[93].title == "rho");
        lemma_lex_lt_at(row_key(92), row_key(93), 1);
    } else if k == 93 {
        reveal_strlit("rho");
        reveal_strlit("section");
        is_ascii_chars_encode_utf8("rho"@);
        is_ascii_chars_encode_utf8("section"@);
        assert(spec_table()[93].title == "rho");
        assert(spec_table()[94].title == "section");
        lemma_lex_lt_at(row_key(93), row_key(94), 0);
    } else if k == 94 {
        reveal_strlit("section");
        reveal_strlit("setcounter");
        is_ascii_chars_encode_utf8("section"@);
        is_ascii_chars_encode_utf8("setcounter"@);
        assert(spec_table()[94].title == "section");
        assert(spec_table()[95].title == "setcounter");
        lemma_lex_lt_at(row_key(94), row_key(95), 2);
    } else if k == 95 {
        reveal_strlit("setcounter");
        reveal_strlit("sigma");
        is_ascii_chars_encode_utf8("setcounter"@);
        is_ascii_chars_encode_utf8("sigma"@);
        assert(spec_table()[95].title == "setcounter");
        assert(spec_table()[96].title == "sigma");
        lemma_lex_lt_at(row_key(95), row_key(96), 1);
    }
}

proof fn lemma_rows_ascend_12(k: int)
    requires
        96 <= k < 104,
    ensures
        lex_lt(row_key(k), row_key(k + 1)),
{
    if k == 96 {
        reveal_strlit("sigma");
        reveal_strlit("siunitx");
        is_ascii_chars_encode_utf8("sigma"@);
        is_ascii_chars_encode_utf8("siunitx"@);
        assert(spec_table()[96].title == "sigma");
        assert(spec_table()[97].title == "siunitx");
        lemma_lex_lt_at(row_key(96), row_key(97), 2);
    } else if k == 97 {
        reveal_strlit("siunitx");
        reveal_strlit("sqrt");
        is_ascii_chars_encode_utf8("siunitx"@);
        is_ascii_chars_encode_utf8("sqrt"@);
        assert(spec_table()[97].title == "siunitx");
        assert(spec_table()[98].title == "sqrt");
        lemma_lex_lt_at(row_key(97), row_key(98), 1);
    } else if k == 98 {
        reveal_strlit("sqrt");
        reveal_strlit("standalone");
        is_ascii_chars_encode_utf8("sqrt"@);
        is_ascii_chars_encode_utf8("standalone"@);
        assert(spec_table()[98].title == "sqrt");
        assert(spec_table()[99].title == "standalone");
        lemma_lex_lt_at(row_key(98), row_key(99), 1);
    } else if k == 99 {
        reveal_strlit("standalone");
        reveal_strlit("subcaption");
        is_ascii_chars_encode_utf8("standalone"@);
        is_ascii_chars_encode_utf8("subcaption"@);
        assert(spec_table()[99].title == "standalone");
        assert(spec_table()[100].title == "subcaption");
        lemma_lex_lt_at(row_key(99), row_key(100), 1);
    } else if k == 100 {
        reveal_strlit("subcaption");
        reveal_strlit("subsection");
        is_ascii_chars_encode_utf8("subcaption"@);
        is_ascii_chars_encode_utf8("subsection"@);
        assert(spec_table()[100].title == "subcaption");
        assert(spec_table()[101].title == "subsection");
        lemma_lex_lt_at(row_key(100), row_key(101), 3);
    } else if k == 101 {
        reveal_strlit("subsection");
        reveal_strlit("subsubsection");
        is_ascii_chars_encode_utf8("subsection"@);
        is_ascii_chars_encode_utf8("subsubsection"@);
        assert(spec_table()[101].title == "subsection");
        assert(spec_table()[102].title == "subsubsection");
        lemma_lex_lt_at(row_key(101), row_key(102), 4);
    } else if k == 102 {
        reveal_strlit("subsubsection");
        reveal_strlit("sum");
        is_ascii_chars_encode_utf8("subsubsection"@);
        is_ascii_chars_encode_utf8("sum"@);
        assert(spec_table()[102].title == "subsubsection");
        assert(spec_table()[103].title == "sum");
        lemma_lex_lt_at(row_key(102), row_key(103), 2);
    } else if k == 103 {
        reveal_strlit("sum");
        reveal_strlit("tau");
        is_ascii_chars_encode_utf8("sum"@);
        is_ascii_chars_encode_utf8("tau"@);
        assert(spec_table()[103].title == "sum");
        assert(spec_table()[104].title == "tau");
        lemma_lex_lt_at(row_key(103), row_key(104), 0);
    }
}

proof fn lemma_rows_ascend_13(k: int)
    requires
        104 <= k < 112,
    ensures
        lex_lt(row_key(k), row_key(k + 1)),
{
    if k == 104 {
        reveal_strlit("tau");
        reveal_strlit("tcolorbox");
        is_ascii_chars_encode_utf8("tau"@);
        is_ascii_chars_encode_utf8("tcolorbox"@);
        assert(spec_table()[104].title == "tau");
        assert(spec_table()[105].title == "tcolorbox");
        lemma_lex_lt_at(row_key(104), row_key(105), 1);
    } else if k == 105 {
        reveal_strlit("tcolorbox");
        reveal_strlit("text");
        is_ascii_chars_encode_utf8("tcolorbox"@);
        is_ascii_chars_encode_utf8("text"@);
        assert(spec_table()[105].title == "tcolorbox");
        assert(spec_table()[106].title == "text");
        lemma_lex_lt_at(row_key(105), row_key(106), 1);
    } else if k == 106 {
        reveal_strlit("text");
        reveal_strlit("textbf");
        is_ascii_chars_encode_utf8("text"@);
        is_ascii_chars_encode_utf8("textbf"@);
        assert(spec_table()[106].title == "text");
        assert(spec_table()[107].title == "textbf");
        lemma_lex_lt_at(row_key(106), row_key(107), 4);
    } else if k == 107 {
        reveal_strlit("textbf");
        reveal_strlit("textit");
        is_ascii_chars_encode_utf8("textbf"@);
        is_ascii_chars_encode_utf8("textit"@);
        assert(spec_table()[107].title == "textbf");
        assert(spec_table()[108].title == "textit");
        lemma_lex_lt_at(row_key(107), row_key(108), 4);
    } else if k == 108 {
        reveal_strlit("textit");
        reveal_strlit("textrm");
        is_ascii_chars_encode_utf8("textit"@);
        is_ascii_chars_encode_utf8("textrm"@);
        assert(spec_table()[108].title == "textit");
        assert(spec_table()[109].title == "textrm");
        lemma_lex_lt_at(row_key(108), row_key(109), 4);
    } else if k == 109 {
        reveal_strlit("textrm");
        reveal_strlit("textsc");
        is_ascii_chars_encode_utf8("textrm"@);
        is_ascii_chars_encode_utf8("textsc"@);
        assert(spec_table()[109].title == "textrm");
        assert(spec_table()[110].title == "textsc");
        lemma_lex_lt_at(row_key(109), row_key(110), 4);
    } else if k == 110 {
        reveal_strlit("textsc");
        reveal_strlit("textsf");
        is_ascii_chars_encode_utf8("textsc"@);
        is_ascii_chars_encode_utf8("textsf"@);
        assert(spec_table()[110].title == "textsc");
        assert(spec_table()[111].title == "textsf");
        lemma_lex_lt_at(row_key(110), row_key(111), 5);
    } else if k == 111 {
        reveal_strlit("textsf");
        reveal_strlit("textsubscript");
        is_ascii_chars_encode_utf8("textsf"@);
        is_ascii_chars_encode_utf8("textsubscript"@);
        assert(spec_table()[111].title == "textsf");
        assert(spec_table()[112].title == "textsubscript");
        lemma_lex_lt_at(row_key(111), row_key(112), 5);
    }
}

proof fn lemma_rows_ascend_14(k: int)
    requires
        112 <= k < 120,
    ensures
        lex_lt(row_key(k), row_key(k + 1)),
{
    if k == 112 {
        reveal_strlit("textsubscript");
        reveal_strlit("textsuperscript");
        is_ascii_chars_encode_utf8("textsubscript"@);
        is_ascii_chars_encode_utf8("textsuperscript"@);
        assert(spec_table()[112].title == "textsubscript");
        assert(spec_table()[113].title == "textsuperscript");
        lemma_lex_lt_at(row_key(112), row_key(113), 6);
    } else if k == 113 {
        reveal_strlit("textsuperscript");
        reveal_strlit("texttt");
        is_ascii_chars_encode_utf8("textsuperscript"@);
        is_ascii_chars_encode_utf8("texttt"@);
        assert(spec_table()[113].title == "textsuperscript");
        assert(spec_table()[114].title == "texttt");
        lemma_lex_lt_at(row_key(113), row_key(114), 4);
    } else if k == 114 {
        reveal_strlit("texttt");
        reveal_strlit("theta");
        is_ascii_chars_encode_utf8("texttt"@);
        is_ascii_chars_encode_utf8("theta"@);
        assert(spec_table()[114].title == "texttt");
        assert(spec_table()[115].title == "theta");
        lemma_lex_lt_at(row_key(114), row_key(115), 1);
    } else if k == 115 {
        reveal_strlit("theta");
        reveal_strlit("tikz");
        is_ascii_chars_encode_utf8("theta"@);
        is_ascii_chars_encode_utf8("tikz"@);
        assert(spec_table()[115].title == "theta");
        assert(spec_table()[116].title == "tikz");
        lemma_lex_lt_at(row_key(115), row_key(116), 1);
    } else if k == 116 {
        reveal_strlit("tikz");
        reveal_strlit("times");
        is_ascii_chars_encode_utf8("tikz"@);
        is_ascii_chars_encode_utf8("times"@);
        assert(spec_table()[116].title == "tikz");
        assert(spec_table()[117].title == "times");
        lemma_lex_lt_at(row_key(116), row_key(117), 2);
    } else if k == 117 {
        reveal_strlit("times");
        reveal_strlit("title");
        is_ascii_chars_encode_utf8("times"@);
        is_ascii_chars_encode_utf8("title"@);
        assert(spec_table()[117].title == "times");
        assert(spec_table()[118].title == "title");
        lemma_lex_lt_at(row_key(117), row_key(118), 2);
    } else if k == 118 {
        reveal_strlit("title");
        reveal_strlit("to");
        is_ascii_chars_encode_utf8("title"@);
        is_ascii_chars_encode_utf8("to"@);
        assert(spec_table()[118].title == "title");
        assert(spec_table()[119].title == "to");
        lemma_lex_lt_at(row_key(118), row_key(119), 1);
    } else if k == 119 {
        reveal_strlit("to");
        reveal_strlit("underline");
        is_ascii_chars_encode_utf8("to"@);
        is_ascii_chars_encode_utf8("underline"@);
        assert(spec_table()[119].title == "to");
        assert(spec_table()[120].title == "underline");
        lemma_lex_lt_at(row_key(119), row_key(120), 0);
    }
}

proof fn lemma_rows_ascend_15(k: int)
    requires
        120 <= k < 128,
    ensures
        lex_lt(row_key(k), row_key(k + 1)),
{
    if k == 120 {
        reveal_strlit("underline");
        reveal_strlit("url");
        is_ascii_chars_encode_utf8("underline"@);
        is_ascii_chars_encode_utf8("url"@);
        assert(spec_table()[120].title == "underline");
        assert(spec_table()[121].title == "url");
        lemma_lex_lt_at(row_key(120), row_key(121), 1);
    } else if k == 121 {
        reveal_strlit("url");
        reveal_strlit("usepackage");
        is_ascii_chars_encode_utf8("url"@);
        is_ascii_chars_encode_utf8("usepackage"@);
        assert(spec_table()[121].title == "url");
        assert(spec_table()[122].title == "usepackage");
        lemma_lex_lt_at(row_key(121), row_key(122), 1);
    } else if k == 122 {
        reveal_strlit("usepackage");
        reveal_strlit("varepsilon");
        is_ascii_chars_encode_utf8("usepackage"@);
        is_ascii_chars_encode_utf8("varepsilon"@);
        assert(spec_table()[122].title == "usepackage");
        assert(spec_table()[123].title == "varepsilon");
        lemma_lex_lt_at(row_key(122), row_key(123), 0);
    } else if k == 123 {
        reveal_strlit("varepsilon");
        reveal_strlit("varphi");
        is_ascii_chars_encode_utf8("varepsilon"@);
        is_ascii_chars_encode_utf8("varphi"@);
        assert(spec_table()[123].title == "varepsilon");
        assert(spec_table()[124].title == "varphi");
        lemma_lex_lt_at(row_key(123), row_key(124), 3);
    } else if k == 124 {
        reveal_strlit("varphi");
        reveal_strlit("varpi");
        is_ascii_chars_encode_utf8("varphi"@);
        is_ascii_chars_encode_utf8("varpi"@);
        assert(spec_table()[124].title == "varphi");
        assert(spec_table()[125].title == "varpi");
        lemma_lex_lt_at(row_key(124), row_key(125), 4);
    } else if k == 125 {
        reveal_strlit("varpi");
        reveal_strlit("varrho");
        is_ascii_chars_encode_utf8("varpi"@);
        is_ascii_chars_encode_utf8("varrho"@);
        assert(spec_table()[125].title == "varpi");
        assert(spec_table()[126].title == "varrho");
        lemma_lex_lt_at(row_key(125), row_key(126), 3);
    } else if k == 126 {
        reveal_strlit("varrho");
        reveal_strlit("varsigma");
        is_ascii_chars_encode_utf8("varrho"@);
        is_ascii_chars_encode_utf8("varsigma"@);
        assert(spec_table()[126].title == "varrho");
        assert(spec_table()[127].title == "varsigma");
        lemma_lex_lt_at(row_key(126), row_key(127), 3);
    } else if k == 127 {
        reveal_strlit("varsigma");
        reveal_strlit("vartheta");
        is_ascii_chars_encode_utf8("varsigma"@);
        is_ascii_chars_encode_utf8("vartheta"@);
        assert(spec_table()[127].title == "varsigma");
        assert(spec_table()[128].title == "vartheta");
        lemma_lex_lt_at(row_key(127), row_key(128), 3);
    }
}

proof fn lemma_rows_ascend_16(k: int)
    requires
        128 <= k < 132,
    ensures
        lex_lt(row_key(k), row_key(k + 1)),
{
    if k == 128 {
        reveal_strlit("vartheta");
        reveal_strlit("xcolor");
        is_ascii_chars_encode_utf8("vartheta"@);
        is_ascii_chars_encode_utf8("xcolor"@);
        assert(spec_table()[128].title == "vartheta");
        assert(spec_table()[129].title == "xcolor");
        lemma_lex_lt_at(row_key(128), row_key(129), 0);
    } else if k == 129 {
        reveal_strlit("xcolor");
        reveal_strlit("xi");
        is_ascii_chars_encode_utf8("xcolor"@);
        is_ascii_chars_encode_utf8("xi"@);
        assert(spec_table()[129].title == "xcolor");
        assert(spec_table()[130].title == "xi");
        lemma_lex_lt_at(row_key(129), row_key(130), 1);
    } else if k == 130 {
        reveal_strlit("xi");
        reveal_strlit("xparse");
        is_ascii_chars_encode_utf8("xi"@);
        is_ascii_chars_encode_utf8("xparse"@);
        assert(spec_table()[130].title == "xi");
        assert(spec_table()[131].title == "xparse");
        lemma_lex_lt_at(row_key(130), row_key(131), 1);
    } else if k == 131 {
        reveal_strlit("xparse");
        reveal_strlit("zeta");
        is_ascii_chars_encode_utf8("xparse"@);
        is_ascii_chars_encode_utf8("zeta"@);
        assert(spec_table()[131].title == "xparse");
        assert(spec_table()[132].title == "zeta");
        lemma_lex_lt_at(row_key(131), row_key(132), 0);
    }
}

/// Each row's lower-cased title comes strictly before the next one's.
proof fn lemma_rows_ascend(k: int)
    requires
        0 <= k < spec_table().len() - 1,
    ensures
        lex_lt(row_key(k), row_key(k + 1)),
{
    assert(spec_table().len() == 133);
    if k < 8 {
        lemma_rows_ascend_0(k);
    } else if k < 16 {
        lemma_rows_ascend_1(k);
    } else if k < 24 {
        lemma_rows_ascend_2(k);
    } else if k < 32 {
        lemma_rows_ascend_3(k);
    } else if k < 40 {
        lemma_rows_ascend_4(k);
    } else if k < 48 {
        lemma_rows_ascend_5(k);
    } else if k < 56 {
        lemma_rows_ascend_6(k);
    } else if k < 64 {
        lemma_rows_ascend_7(k);
    } else if k < 72 {
        lemma_rows_ascend_8(k);
    } else if k < 80 {
        lemma_rows_ascend_9(k);
    } else if k < 88 {
        lemma_rows_ascend_10(k);
    } else if k < 96 {
        lemma_rows_ascend_11(k);
    } else if k < 104 {
        lemma_rows_ascend_12(k);
    } else if k < 112 {
        lemma_rows_ascend_13(k);
    } else if k < 120 {
        lemma_rows_ascend_14(k);
    } else if k < 128 {
        lemma_rows_ascend_15(k);
    } else if k < 132 {
        lemma_rows_ascend_16(k);
    }
}

proof fn lemma_rows_span(i: int, j: int)
    requires
        0 <= i < j < spec_table().len(),
    ensures
        lex_lt(row_key(i), row_key(j)),
    decreases j - i,
{
    lemma_rows_ascend(j - 1);
    if j > i + 1 {
        lemma_rows_span(i, j - 1);
        lemma_lex_trans(row_key(i), row_key(j - 1), row_key(j));
    }
}

/// The bundled table is in strictly ascending order of lower-cased titles,
/// so no two titles are equal up to ASCII letter case.
pub proof fn law_table_sorted()
    ensures
        table_sorted(),
{
    assert forall|i: int, j: int| 0 <= i < j < spec_table().len() implies lex_lt(#[trigger] row_key(i), #[trigger] row_key(j)) by {
        lemma_rows_span(i, j);
    }
}

/// Number of rows in the bundled table.
pub fn table_len() -> (r: usize)
    ensures
        r == spec_table().len(),
{
    table().len()
}

/// The title of row `i` of the bundled table.
pub fn title_at(i: usize) -> (r: &'static str)
    requires
        i < spec_table().len(),
    ensures
        r == spec_table()[i as int].title,
{
    table()[i].title
}

} // verus!
