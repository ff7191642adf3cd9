//! The registry of document extractors, and the extractors that it starts with.
use crate::error::XbergError;
use crate::text;
use crate::text::contains_string;
use vstd::prelude::*;

verus! {

/// The extractors that there are, by name.
#[derive(Clone, Debug)]
pub struct DocumentExtractorRegistry {
    /// Whether the default extractors were registered once.
    pub initialized: bool,
    /// The names of the extractors, in the order of their registration.
    pub names: Vec<String>,
}

/// A registry, with its texts as sequences.
#[verifier::ext_equal]
pub struct Registry {
    /// Whether the default extractors were registered once.
    pub initialized: bool,
    /// The names of the extractors.
    pub names: Seq<Seq<char>>,
}

impl View for DocumentExtractorRegistry {
    type V = Registry;

    open spec fn view(&self) -> Registry {
        Registry { initialized: self.initialized, names: text::strings(self.names@) }
    }
}

/// Names with one more; a name that is there already stays where it is.
pub open spec fn registered(names: Seq<Seq<char>>, name: Seq<char>) -> Seq<Seq<char>> {
    if names.contains(name) {
        names
    } else {
        names.push(name)
    }
}

/// Names with more names.
pub open spec fn registered_all(names: Seq<Seq<char>>, more: Seq<Seq<char>>) -> Seq<Seq<char>>
    decreases more.len(),
{
    if more.len() == 0 {
        names
    } else {
        registered(registered_all(names, more.drop_last()), more.last())
    }
}

/// The extractors that are always there.
pub open spec fn baseline_names() -> Seq<Seq<char>> {
    seq![
        "plain-text-extractor"@,
        "asciidoc-extractor"@,
        "webvtt-extractor"@,
        "markdown-extractor"@,
        "structured-extractor"@,
        "csv-extractor"@,
        "doctags-extractor"@,
    ]
}

/// The extractors of databases, images, XML vocabularies, page descriptions, workbooks and lightweight
/// markup.
pub open spec fn format_names() -> Seq<Seq<char>> {
    seq![
        "sqlite-extractor"@,
        "image-extractor"@,
        "xml-extractor"@,
        "jats-extractor"@,
        "docbook-extractor"@,
        "pdf-extractor"@,
        "excel-extractor"@,
        "djot-extractor"@,
        "jupyter-extractor"@,
    ]
}

/// The extractors of office documents.
pub open spec fn office_names() -> Seq<Seq<char>> {
    seq![
        "bibtex-extractor"@,
        "citation-extractor"@,
        "epub-extractor"@,
        "fictionbook-extractor"@,
        "rtf-extractor"@,
        "rst-extractor"@,
        "latex-extractor"@,
        "orgmode-extractor"@,
        "opml-extractor"@,
        "typst-extractor"@,
        "doc-extractor"@,
        "docx-extractor"@,
        "visio-extractor"@,
        "ppt-extractor"@,
        "pptx-extractor"@,
        "odt-extractor"@,
        "odp-extractor"@,
        "dbf-extractor"@,
    ]
}

/// The extractors of office documents in formats of their own.
pub open spec fn container_names() -> Seq<Seq<char>> {
    seq![
        "hwp-extractor"@,
        "hwpx-extractor"@,
        "wordperfect-extractor"@,
        "iwork-pages-extractor"@,
        "iwork-numbers-extractor"@,
        "iwork-keynote-extractor"@,
    ]
}

/// The extractors of mail, pages of the web, source code, archives and speech.
pub open spec fn bundle_names() -> Seq<Seq<char>> {
    seq![
        "mdx-extractor"@,
        "email-extractor"@,
        "pst-extractor"@,
        "html-extractor"@,
        "code-extractor"@,
        "zip-extractor"@,
        "tar-extractor"@,
        "7z-extractor"@,
        "gzip-extractor"@,
        "transcription"@,
    ]
}

/// Names with those of the default extractors.
pub open spec fn with_defaults(names: Seq<Seq<char>>) -> Seq<Seq<char>> {
    registered_all(
        registered_all(
            registered_all(registered_all(registered_all(names, baseline_names()), format_names()), office_names()),
            container_names(),
        ),
        bundle_names(),
    )
}

impl Registry {
    /// A registry whose default extractors are registered: on the first call, and again on a later call
    /// that finds it empty.
    pub open spec fn ready(self) -> Registry {
        let once = if self.initialized {
            self.names
        } else {
            with_defaults(self.names)
        };
        Registry {
            initialized: true,
            names: if once.len() == 0 {
                with_defaults(once)
            } else {
                once
            },
        }
    }
}

impl DocumentExtractorRegistry {
    /// A registry without extractors.
    pub fn new() -> (r: Self)
        ensures
            r@ == (Registry { initialized: false, names: Seq::empty() }),
    {
        let r = DocumentExtractorRegistry { initialized: false, names: Vec::new() };
        assert(r@ =~= (Registry { initialized: false, names: Seq::empty() }));
        r
    }

    /// The names of the extractors.
    pub fn list(&self) -> (r: &Vec<String>)
        ensures
            text::strings(r@) == self@.names,
    {
        &self.names
    }

    /// Registers an extractor. One that is there already keeps its place.
    pub fn register_internal(&mut self, name: &str)
        ensures
            final(self)@ == (Registry { names: registered(old(self)@.names, name@), ..old(self)@ }),
    {
        let ghost before = self@;
        if !contains_string(self.names.as_slice(), name) {
            self.names.push(name.to_owned());
            assert(self@.names =~= before.names.push(name@));
        }
    }

    /// Registers extractors.
    fn register_all(&mut self, more: &[&str])
        ensures
            final(self)@ == (Registry { names: registered_all(old(self)@.names, text::slices(more@)), ..old(self)@ }),
    {
        let ghost all = text::slices(more@);
        let ghost before = self@;
        let mut i: usize = 0;
        while i < more.len()
            invariant
                i <= more.len(),
                all == text::slices(more@),
                self@ == (Registry { names: registered_all(before.names, all.take(i as int)), ..before }),
            decreases more.len() - i,
        {
            assert(all.take(i + 1).drop_last() =~= all.take(i as int));
            self.register_internal(more[i]);
            i += 1;
        }
        assert(all.take(all.len() as int) =~= all);
    }

    /// Registers the extractors that are always there.
    fn register_baseline_extractors(&mut self)
        ensures
            final(self)@ == (Registry { names: registered_all(old(self)@.names, baseline_names()), ..old(self)@ }),
    {
        let names: Vec<&str> = vec![
            "plain-text-extractor",
            "asciidoc-extractor",
            "webvtt-extractor",
            "markdown-extractor",
            "structured-extractor",
            "csv-extractor",
            "doctags-extractor",
        ];
        assert(text::slices(names@) =~= baseline_names());
        self.register_all(names.as_slice());
    }

    /// Registers the extractors of databases, images, XML vocabularies, page descriptions, workbooks and
    /// lightweight markup.
    fn register_format_extractors(&mut self)
        ensures
            final(self)@ == (Registry { names: registered_all(old(self)@.names, format_names()), ..old(self)@ }),
    {
        let names: Vec<&str> = vec![
            "sqlite-extractor",
            "image-extractor",
            "xml-extractor",
            "jats-extractor",
            "docbook-extractor",
            "pdf-extractor",
            "excel-extractor",
            "djot-extractor",
            "jupyter-extractor",
        ];
        assert(text::slices(names@) =~= format_names());
        self.register_all(names.as_slice());
    }

    /// Registers the extractors of office documents.
    fn register_office_extractors(&mut self)
        ensures
            final(self)@ == (Registry { names: registered_all(old(self)@.names, office_names()), ..old(self)@ }),
    {
        let names: Vec<&str> = vec![
            "bibtex-extractor",
            "citation-extractor",
            "epub-extractor",
            "fictionbook-extractor",
            "rtf-extractor",
            "rst-extractor",
            "latex-extractor",
            "orgmode-extractor",
            "opml-extractor",
            "typst-extractor",
            "doc-extractor",
            "docx-extractor",
            "visio-extractor",
            "ppt-extractor",
            "pptx-extractor",
            "odt-extractor",
            "odp-extractor",
            "dbf-extractor",
        ];
        assert(text::slices(names@) =~= office_names());
        self.register_all(names.as_slice());
    }

    /// Registers the extractors of office documents in formats of their own.
    fn register_container_format_extractors(&mut self)
        ensures
            final(self)@ == (Registry { names: registered_all(old(self)@.names, container_names()), ..old(self)@ }),
    {
        let names: Vec<&str> = vec![
            "hwp-extractor",
            "hwpx-extractor",
            "wordperfect-extractor",
            "iwork-pages-extractor",
            "iwork-numbers-extractor",
            "iwork-keynote-extractor",
        ];
        assert(text::slices(names@) =~= container_names());
        self.register_all(names.as_slice());
    }

    /// Registers the extractors of mail, pages of the web, source code, archives and speech.
    fn register_bundle_extractors(&mut self)
        ensures
            final(self)@ == (Registry { names: registered_all(old(self)@.names, bundle_names()), ..old(self)@ }),
    {
        let names: Vec<&str> = vec![
            "mdx-extractor",
            "email-extractor",
            "pst-extractor",
            "html-extractor",
            "code-extractor",
            "zip-extractor",
            "tar-extractor",
            "7z-extractor",
            "gzip-extractor",
            "transcription",
        ];
        assert(text::slices(names@) =~= bundle_names());
        self.register_all(names.as_slice());
    }
}

/// Registers the default extractors.
pub fn register_default_extractors(registry: &mut DocumentExtractorRegistry) -> (r: Result<(), XbergError>)
    ensures
        r is Ok,
        final(registry)@ == (Registry { names: with_defaults(old(registry)@.names), ..old(registry)@ }),
{
    registry.register_baseline_extractors();
    registry.register_format_extractors();
    registry.register_office_extractors();
    registry.register_container_format_extractors();
    registry.register_bundle_extractors();
    Ok(())
}

/// Ensures that the default extractors are registered: on the first call, and again on a later call that
/// finds the registry empty.
pub fn ensure_initialized(registry: &mut DocumentExtractorRegistry) -> (r: Result<(), XbergError>)
    ensures
        r is Ok,
        final(registry)@ == old(registry)@.ready(),
{
    if !registry.initialized {
        match register_default_extractors(registry) {
            Ok(_) => {},
            Err(error) => return Err(error),
        }
        registry.initialized = true;
    }
    if registry.names.len() == 0 {
        match register_default_extractors(registry) {
            Ok(_) => {},
            Err(error) => return Err(error),
        }
    }
    Ok(())
}

/// Registering names keeps those that are there and adds the rest, each once.
proof fn lemma_registered_all(names: Seq<Seq<char>>, more: Seq<Seq<char>>)
    ensures
        registered_all(names, more).len() >= names.len(),
        forall|name: Seq<char>| names.contains(name) ==> #[trigger] registered_all(names, more).contains(name),
        forall|i: int| 0 <= i < more.len() ==> registered_all(names, more).contains(#[trigger] more[i]),
        names.no_duplicates() ==> registered_all(names, more).no_duplicates(),
    decreases more.len(),
{
    if more.len() > 0 {
        let head = more.drop_last();
        lemma_registered_all(names, head);
        let before = registered_all(names, head);
        let all = registered_all(names, more);
        assert forall|name: Seq<char>| before.contains(name) || name == more.last() implies #[trigger] all.contains(
            name,
        ) by {
            if before.contains(name) {
                let i = before.index_of(name);
                assert(all[i] == name);
            } else {
                assert(all[all.len() - 1] == name);
            }
        }
        assert forall|i: int| 0 <= i < more.len() implies all.contains(#[trigger] more[i]) by {
            if i < head.len() {
                assert(before.contains(head[i]));
            }
        }
        if names.no_duplicates() && !before.contains(more.last()) {
            assert forall|i: int, j: int| 0 <= i < all.len() && 0 <= j < all.len() && i != j implies all[i] != all[j] by {
                if i < before.len() {
                    assert(before.contains(before[i]));
                }
                if j < before.len() {
                    assert(before.contains(before[j]));
                }
            }
        }
    }
}

/// Once it is ready, a registry holds the extractors that are always there, and stays as it is however
/// often it is made ready.
pub proof fn law_ready_registry_stays(registry: Registry)
    ensures
        registry.ready().initialized,
        registry.ready().names.len() > 0,
        registry.ready().ready() == registry.ready(),
        !registry.initialized || registry.names.len() == 0 ==> forall|i: int|
            0 <= i < baseline_names().len() ==> registry.ready().names.contains(#[trigger] baseline_names()[i]),
{
    let once = if registry.initialized {
        registry.names
    } else {
        with_defaults(registry.names)
    };
    lemma_defaults(registry.names);
    lemma_defaults(once);
}

/// The default extractors are there once they are registered.
proof fn lemma_defaults(names: Seq<Seq<char>>)
    ensures
        with_defaults(names).len() > 0,
        forall|i: int| 0 <= i < baseline_names().len() ==> with_defaults(names).contains(#[trigger] baseline_names()[i]),
        names.no_duplicates() ==> with_defaults(names).no_duplicates(),
{
    let a = registered_all(names, baseline_names());
    let b = registered_all(a, format_names());
    let c = registered_all(b, office_names());
    let d = registered_all(c, container_names());
    lemma_registered_all(names, baseline_names());
    lemma_registered_all(a, format_names());
    lemma_registered_all(b, office_names());
    lemma_registered_all(c, container_names());
    lemma_registered_all(d, bundle_names());
    assert(a.contains(baseline_names()[0]));
}

/// No extractor is registered twice.
pub proof fn law_extractors_are_registered_once(registry: Registry)
    requires
        registry.names.no_duplicates(),
    ensures
        registry.ready().names.no_duplicates(),
{
    lemma_defaults(registry.names);
    let once = if registry.initialized {
        registry.names
    } else {
        with_defaults(registry.names)
    };
    lemma_defaults(once);
}

} // verus!
