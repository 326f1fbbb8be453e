//! Project configuration: the pytest settings that decide what is collected,
//! and the runner's own settings.

use crate::ddmin::least;
use crate::numbers::{dec, decimal};
use crate::paths::{joined_path, path_join};
use crate::text::{
    find_char, from_range, lines, lines_of, opt_text, pos, split_whitespace, str_eq, texts,
    to_chars, trim, trim_back, trim_end, trim_front, trim_start, trimmed, words,
};
use crate::toml_doc::{
    entry, node, parse_document, toml_document, toml_tree, trees, TomlNode, TomlTree,
};
use vstd::prelude::*;

verus! {

broadcast use {crate::text::lemma_texts_push, crate::text::lemma_texts_add};

/// What is collected, and from where.
#[derive(Debug, Clone)]
pub struct ProjectConfig {
    pub rootdir: String,
    /// File-name patterns of test modules.
    pub python_files: Vec<String>,
    /// Where collection begins when no paths are given.
    pub testpaths: Vec<String>,
}

/// A [`ProjectConfig`] in characters.
#[verifier::ext_equal]
pub struct ProjectModel {
    pub rootdir: Seq<char>,
    pub python_files: Seq<Seq<char>>,
    pub testpaths: Seq<Seq<char>>,
}

impl View for ProjectConfig {
    type V = ProjectModel;

    open spec fn view(&self) -> ProjectModel {
        ProjectModel {
            rootdir: self.rootdir@,
            python_files: texts(self.python_files@),
            testpaths: texts(self.testpaths@),
        }
    }
}

/// What holds without any configuration: both of pytest's own patterns.
pub open spec fn default_project() -> ProjectModel {
    ProjectModel {
        rootdir: "."@,
        python_files: seq!["test_*.py"@, "*_test.py"@],
        testpaths: Seq::empty(),
    }
}

impl Default for ProjectConfig {
    fn default() -> (res: Self)
        ensures
            res@ == default_project(),
    {
        let mut python_files: Vec<String> = Vec::new();
        python_files.push("test_*.py".to_owned());
        python_files.push("*_test.py".to_owned());
        let res = ProjectConfig { rootdir: ".".to_owned(), python_files, testpaths: Vec::new() };
        assert(res@ =~= default_project());
        res
    }
}

/// A project found in a configuration, in characters.
pub open spec fn opt_project(p: Option<ProjectConfig>) -> Option<ProjectModel> {
    match p {
        Some(c) => Some(c@),
        None => None,
    }
}

/// One line of an INI file.
pub enum IniLine {
    Blank,
    Header(Seq<char>),
    Comment,
    Content { indented: bool, content: Seq<char> },
}

/// What a raw line is.
pub open spec fn ini_line(raw: Seq<char>) -> IniLine {
    let line = trim_back(raw);
    let content = trim_front(line);
    let indented = line.len() > 0 && (line[0] == ' ' || line[0] == '\t');
    if content.len() == 0 {
        IniLine::Blank
    } else if !indented && content.len() >= 2 && content[0] == '[' && content.last() == ']' {
        IniLine::Header(content.subrange(1, content.len() - 1))
    } else if content[0] == '#' || content[0] == ';' {
        IniLine::Comment
    } else {
        IniLine::Content { indented, content }
    }
}

/// What has been read of an INI file: whether the last header is the wanted
/// one, whether any was, the values that took effect, and the key that still
/// takes indented lines.
#[verifier::ext_equal]
pub struct IniState {
    pub in_section: bool,
    pub found: bool,
    pub python_files: Seq<Seq<char>>,
    pub testpaths: Seq<Seq<char>>,
    pub key: Option<(Seq<char>, Seq<Seq<char>>)>,
}

impl IniState {
    /// The state before the first line.
    pub open spec fn start() -> IniState {
        IniState {
            in_section: false,
            found: false,
            python_files: default_project().python_files,
            testpaths: default_project().testpaths,
            key: None,
        }
    }

    /// The open key takes effect, unless it has no values.
    pub open spec fn closed(self) -> IniState {
        match self.key {
            None => self,
            Some((key, values)) => IniState {
                python_files: if key == "python_files"@ && values.len() > 0 {
                    values
                } else {
                    self.python_files
                },
                testpaths: if key != "python_files"@ && key == "testpaths"@ && values.len() > 0 {
                    values
                } else {
                    self.testpaths
                },
                key: None,
                ..self
            },
        }
    }

    /// The state after one more line.
    pub open spec fn after(self, line: IniLine, section: Seq<char>) -> IniState {
        match line {
            IniLine::Blank => self,
            IniLine::Comment => self,
            IniLine::Header(name) => IniState {
                in_section: name == section,
                found: self.found || name == section,
                ..self.closed()
            },
            IniLine::Content { indented, content } => if !self.in_section {
                self
            } else if indented && self.key is Some {
                let (key, values) = self.key->0;
                IniState { key: Some((key, values + words(content))), ..self }
            } else {
                IniState { key: key_in(content), ..self.closed() }
            },
        }
    }
}

/// The key and the values of a line, split at the first `=` or `:`.
pub open spec fn key_in(content: Seq<char>) -> Option<(Seq<char>, Seq<Seq<char>>)> {
    let at = least(pos(content, '='), pos(content, ':'));
    if at < content.len() {
        Some((trimmed(content.take(at)), words(content.skip(at + 1))))
    } else {
        None
    }
}

/// The state after the first `n` lines.
pub open spec fn ini_after(raws: Seq<Seq<char>>, n: int, section: Seq<char>) -> IniState
    decreases n,
{
    if n <= 0 {
        IniState::start()
    } else {
        ini_after(raws, n - 1, section).after(ini_line(raws[n - 1]), section)
    }
}

/// The project that an INI text configures in a section, where it has one.
pub open spec fn ini_project(text: Seq<char>, section: Seq<char>) -> Option<ProjectModel> {
    let raws = lines_of(text);
    let end = ini_after(raws, raws.len() as int, section).closed();
    if end.found {
        Some(
            ProjectModel {
                rootdir: default_project().rootdir,
                python_files: end.python_files,
                testpaths: end.testpaths,
            },
        )
    } else {
        None
    }
}

/// The state of the INI reader.
struct Ini {
    in_section: bool,
    found: bool,
    cfg: ProjectConfig,
    key: Option<(String, Vec<String>)>,
}

impl Ini {
    spec fn model(self) -> IniState {
        IniState {
            in_section: self.in_section,
            found: self.found,
            python_files: texts(self.cfg.python_files@),
            testpaths: texts(self.cfg.testpaths@),
            key: match self.key {
                Some((k, v)) => Some((k@, texts(v@))),
                None => None,
            },
        }
    }

    fn close(&mut self)
        ensures
            final(self).model() == old(self).model().closed(),
            final(self).cfg.rootdir@ == old(self).cfg.rootdir@,
    {
        let key = self.key.take();
        if let Some((k, values)) = key {
            if values.len() > 0 {
                if str_eq(k.as_str(), "python_files") {
                    self.cfg.python_files = values;
                } else if str_eq(k.as_str(), "testpaths") {
                    self.cfg.testpaths = values;
                }
            }
        }
    }

    fn read_line(&mut self, raw: &str, section: &str)
        ensures
            final(self).model() == old(self).model().after(ini_line(raw@), section@),
            final(self).cfg.rootdir@ == old(self).cfg.rootdir@,
    {
        let line = to_chars(trim_end(raw).as_str());
        let content_text = trim_start(trim_end(raw).as_str());
        let content = to_chars(content_text.as_str());
        let indented = line.len() > 0 && (line[0] == ' ' || line[0] == '\t');
        if content.len() == 0 {
            return;
        }
        if !indented && content.len() >= 2 && content[0] == '[' && content[content.len() - 1] == ']' {
            let name = from_range(&content, 1, content.len() - 1);
            self.close();
            self.in_section = str_eq(name.as_str(), section);
            self.found = self.found || self.in_section;
            return;
        }
        if !self.in_section || content[0] == '#' || content[0] == ';' {
            return;
        }
        if indented && self.key.is_some() {
            let key = self.key.take();
            if let Some((k, mut values)) = key {
                let mut more = split_whitespace(content_text.as_str());
                values.append(&mut more);
                self.key = Some((k, values));
            }
            return;
        }
        self.close();
        self.key = read_key(content_text.as_str());
    }
}

/// The key and the values of a line.
fn read_key(content: &str) -> (res: Option<(String, Vec<String>)>)
    ensures
        match res {
            Some((k, v)) => key_in(content@) == Some((k@, texts(v@))),
            None => key_in(content@) is None,
        },
{
    let v = to_chars(content);
    assert(v@.skip(0) =~= v@);
    let eq = find_char(&v, 0, '=');
    let colon = find_char(&v, 0, ':');
    let at: usize = if eq < colon { eq } else { colon };
    if at < v.len() {
        let key = from_range(&v, 0, at);
        let rest = from_range(&v, at + 1, v.len());
        assert(key@ =~= content@.take(at as int));
        assert(rest@ =~= content@.skip(at + 1));
        Some((trim(key.as_str()), split_whitespace(rest.as_str())))
    } else {
        None
    }
}

/// Reads the pytest settings from a section of an INI text. A value stands on
/// the line of its key or on indented lines below it, which blank lines do not
/// end; comments are skipped, and a key without values changes nothing.
pub fn parse_ini(text: &str, section: &str) -> (res: Option<ProjectConfig>)
    ensures
        opt_project(res) == ini_project(text@, section@),
{
    let raws = lines(text);
    let ghost all = texts(raws@);
    let mut ini = Ini {
        in_section: false,
        found: false,
        cfg: ProjectConfig::default(),
        key: None,
    };
    let mut i: usize = 0;
    assert(ini.model() =~= IniState::start());
    while i < raws.len()
        invariant
            i <= raws.len(),
            all == texts(raws@),
            ini.model() == ini_after(all, i as int, section@),
            ini.cfg.rootdir@ == default_project().rootdir,
        decreases raws.len() - i,
    {
        assert(all[i as int] == raws@[i as int]@);
        ini.read_line(raws[i].as_str(), section);
        i += 1;
    }
    ini.close();
    if ini.found {
        Some(ini.cfg)
    } else {
        None
    }
}

/// Blank lines and comments change nothing, wherever they stand: a value goes on
/// below them.
pub proof fn theorem_blank_lines_change_nothing(
    text: Seq<char>,
    with: Seq<char>,
    at: int,
    line: Seq<char>,
    section: Seq<char>,
)
    requires
        0 <= at <= lines_of(text).len(),
        lines_of(with) == lines_of(text).insert(at, line),
        ini_line(line) is Blank || ini_line(line) is Comment,
    ensures
        ini_project(with, section) == ini_project(text, section),
{
    let raws = lines_of(text);
    lemma_line_without_effect(raws, at, line, section, raws.len() as int);
}

proof fn lemma_line_without_effect(
    raws: Seq<Seq<char>>,
    at: int,
    line: Seq<char>,
    section: Seq<char>,
    n: int,
)
    requires
        0 <= at <= raws.len(),
        0 <= n <= raws.len(),
        ini_line(line) is Blank || ini_line(line) is Comment,
    ensures
        n < at ==> ini_after(raws.insert(at, line), n, section) == ini_after(raws, n, section),
        n >= at ==> ini_after(raws.insert(at, line), n + 1, section) == ini_after(raws, n, section),
    decreases n,
{
    let more = raws.insert(at, line);
    if n > 0 {
        lemma_line_without_effect(raws, at, line, section, n - 1);
        if n < at {
            assert(more[n - 1] == raws[n - 1]);
        } else if n > at {
            assert(more[n] == raws[n - 1]);
        } else {
            assert(more[n] == line);
            assert(more[n - 1] == raws[n - 1]);
        }
    }
}

/// The texts among some TOML values, in order.
pub open spec fn texts_in(items: Seq<TomlTree>) -> Seq<Seq<char>>
    decreases items.len(),
{
    if items.len() == 0 {
        Seq::empty()
    } else {
        let before = texts_in(items.drop_last());
        match items.last() {
            TomlTree::Text(s) => before.push(s),
            _ => before,
        }
    }
}

/// A list of texts: a TOML list, or one text of words.
pub open spec fn text_list(v: TomlTree) -> Seq<Seq<char>> {
    match v {
        TomlTree::List(items) => texts_in(items),
        TomlTree::Text(s) => words(s),
        _ => Seq::empty(),
    }
}

/// The texts among some TOML values.
fn list_texts(items: &Vec<toml::Value>) -> (res: Vec<String>)
    ensures
        texts(res@) == texts_in(trees(items@)),
{
    let ghost all = trees(items@);
    let mut out: Vec<String> = Vec::new();
    let mut i: usize = 0;
    assert(texts(out@) =~= Seq::empty());
    while i < items.len()
        invariant
            i <= items.len(),
            all == trees(items@),
            texts(out@) == texts_in(all.take(i as int)),
        decreases items.len() - i,
    {
        proof {
            assert(all.take(i + 1).drop_last() =~= all.take(i as int));
            assert(all.take(i + 1).last() == toml_tree(items@[i as int]));
        }
        if let TomlNode::Text(s) = node(&items[i]) {
            out.push(s.to_owned());
        }
        i += 1;
    }
    assert(all.take(items.len() as int) =~= all);
    out
}

/// Reads a list of texts, or one text of words.
pub fn toml_str_list(v: &toml::Value) -> (res: Vec<String>)
    ensures
        texts(res@) == text_list(toml_tree(*v)),
{
    match node(v) {
        TomlNode::List(items) => list_texts(items),
        TomlNode::Text(s) => split_whitespace(s),
        _ => {
            let none: Vec<String> = Vec::new();
            assert(texts(none@) =~= Seq::empty());
            none
        },
    }
}

/// The project that `[tool.pytest.ini_options]` of a document configures.
pub open spec fn pyproject_project(doc: TomlTree) -> Option<ProjectModel> {
    match doc.entry("tool"@) {
        None => None,
        Some(tool) => match tool.entry("pytest"@) {
            None => None,
            Some(pytest) => match pytest.entry("ini_options"@) {
                None => None,
                Some(ini) => Some(
                    ProjectModel {
                        rootdir: default_project().rootdir,
                        python_files: match ini.entry("python_files"@) {
                            Some(v) => text_list(v),
                            None => default_project().python_files,
                        },
                        testpaths: match ini.entry("testpaths"@) {
                            Some(v) => text_list(v),
                            None => default_project().testpaths,
                        },
                    },
                ),
            },
        },
    }
}

/// Reads the pytest settings from a TOML document.
pub fn project_in(doc: &toml::Value) -> (res: Option<ProjectConfig>)
    ensures
        opt_project(res) == pyproject_project(toml_tree(*doc)),
{
    let ini = match entry(doc, "tool") {
        None => None,
        Some(tool) => match entry(tool, "pytest") {
            None => None,
            Some(pytest) => entry(pytest, "ini_options"),
        },
    };
    match ini {
        None => None,
        Some(ini) => {
            let mut cfg = ProjectConfig::default();
            if let Some(v) = entry(ini, "python_files") {
                cfg.python_files = toml_str_list(v);
            }
            if let Some(v) = entry(ini, "testpaths") {
                cfg.testpaths = toml_str_list(v);
            }
            Some(cfg)
        },
    }
}

/// Reads the pytest settings from the text of a TOML document; the words of the
/// complaint where it is malformed.
pub fn parse_pyproject(text: &str) -> (res: Result<Option<ProjectConfig>, String>)
    ensures
        match (toml_document(text@), res) {
            (Ok(doc), Ok(p)) => opt_project(p) == pyproject_project(doc),
            (Err(words), Err(w)) => w@ == words,
            _ => false,
        },
{
    match parse_document(text) {
        Ok(doc) => Ok(project_in(&doc)),
        Err(words) => Err(words),
    }
}

/// A directory and the texts of the configuration files in it that can be read.
pub struct ConfigDir {
    pub path: String,
    /// Whether it is a path of Windows.
    pub windows: bool,
    pub pytest_ini: Option<String>,
    pub pyproject: Option<String>,
    pub tox_ini: Option<String>,
    pub setup_cfg: Option<String>,
}

/// The note on a configuration file that is not well-formed.
pub open spec fn malformed_note(path: Seq<char>, words: Seq<char>) -> Seq<char> {
    "rstest: ignoring malformed "@ + path + ": "@ + words
}

fn note_malformed(path: &str, words: &str) -> (res: String)
    ensures
        res@ == malformed_note(path@, words@),
{
    let mut out = String::from_str("rstest: ignoring malformed ");
    out.append(path);
    out.append(": ");
    out.append(words);
    out
}

/// The project that an INI file configures, if it is there.
pub open spec fn ini_file_project(text: Option<Seq<char>>, section: Seq<char>) -> Option<
    ProjectModel,
> {
    match text {
        Some(t) => ini_project(t, section),
        None => None,
    }
}

fn ini_file(text: &Option<String>, section: &str) -> (res: Option<ProjectConfig>)
    ensures
        opt_project(res) == ini_file_project(opt_text(*text), section@),
{
    match text {
        Some(t) => parse_ini(t.as_str(), section),
        None => None,
    }
}

impl ConfigDir {
    /// Where `pyproject.toml` lies.
    pub open spec fn pyproject_path(self) -> Seq<char> {
        joined_path(self.windows, self.path@, "pyproject.toml"@)
    }

    /// The project that the files of the directory configure: the first of
    /// `pytest.ini`, `pyproject.toml`, `tox.ini` and `setup.cfg` with a pytest
    /// section decides.
    pub open spec fn project(self) -> Option<ProjectModel> {
        let ini = ini_file_project(opt_text(self.pytest_ini), "pytest"@);
        let pyproject = match opt_text(self.pyproject) {
            None => None,
            Some(text) => match toml_document(text) {
                Ok(doc) => pyproject_project(doc),
                Err(_) => None,
            },
        };
        let tox = ini_file_project(opt_text(self.tox_ini), "pytest"@);
        if ini is Some {
            ini
        } else if pyproject is Some {
            pyproject
        } else if tox is Some {
            tox
        } else {
            ini_file_project(opt_text(self.setup_cfg), "tool:pytest"@)
        }
    }

    /// The notes written while looking for it.
    pub open spec fn notes(self) -> Seq<Seq<char>> {
        if ini_file_project(opt_text(self.pytest_ini), "pytest"@) is Some {
            Seq::empty()
        } else {
            match opt_text(self.pyproject) {
                None => Seq::empty(),
                Some(text) => match toml_document(text) {
                    Ok(_) => Seq::empty(),
                    Err(words) => seq![malformed_note(self.pyproject_path(), words)],
                },
            }
        }
    }

    /// Reads the project that the directory's files configure, and the notes on
    /// what was ignored.
    pub fn read(&self) -> (res: (Option<ProjectConfig>, Vec<String>))
        ensures
            opt_project(res.0) == self.project(),
            texts(res.1@) == self.notes(),
    {
        let mut notes: Vec<String> = Vec::new();
        assert(texts(notes@) =~= Seq::empty());
        let ini = ini_file(&self.pytest_ini, "pytest");
        if ini.is_some() {
            return (ini, notes);
        }
        if let Some(text) = &self.pyproject {
            match parse_pyproject(text.as_str()) {
                Ok(p) => {
                    if p.is_some() {
                        return (p, notes);
                    }
                },
                Err(words) => {
                    let path = path_join(self.windows, self.path.as_str(), "pyproject.toml");
                    notes.push(note_malformed(path.as_str(), words.as_str()));
                    assert(texts(notes@) =~= self.notes());
                },
            }
        }
        let tox = ini_file(&self.tox_ini, "pytest");
        if tox.is_some() {
            return (tox, notes);
        }
        (ini_file(&self.setup_cfg, "tool:pytest"), notes)
    }
}

/// Whether a directory has a pytest configuration of its own, and the notes on
/// what was ignored.
pub fn has_pytest_config(dir: &ConfigDir) -> (res: (bool, Vec<String>))
    ensures
        res.0 == (dir.project() is Some),
        texts(res.1@) == dir.notes(),
{
    let (project, notes) = dir.read();
    (project.is_some(), notes)
}

/// The project that the nearest of some directories configures, from the
/// `i`-th on; its root is that directory.
pub open spec fn project_from(dirs: Seq<ConfigDir>, i: int) -> ProjectModel
    decreases dirs.len() - i,
{
    if i >= dirs.len() {
        default_project()
    } else {
        match dirs[i].project() {
            Some(p) => ProjectModel { rootdir: dirs[i].path@, ..p },
            None => project_from(dirs, i + 1),
        }
    }
}

/// The notes written while looking for it.
pub open spec fn notes_from(dirs: Seq<ConfigDir>, i: int) -> Seq<Seq<char>>
    decreases dirs.len() - i,
{
    if i >= dirs.len() {
        Seq::empty()
    } else if dirs[i].project() is Some {
        dirs[i].notes()
    } else {
        dirs[i].notes() + notes_from(dirs, i + 1)
    }
}

/// Finds the project's configuration: `dirs` is the starting directory followed
/// by its ancestors. Also gives the notes on what was ignored on the way.
pub fn discover(dirs: &[ConfigDir]) -> (res: (ProjectConfig, Vec<String>))
    ensures
        res.0@ == project_from(dirs@, 0),
        texts(res.1@) == notes_from(dirs@, 0),
{
    let mut notes: Vec<String> = Vec::new();
    let mut i: usize = 0;
    assert(texts(notes@) + notes_from(dirs@, 0) =~= notes_from(dirs@, 0));
    while i < dirs.len()
        invariant
            i <= dirs.len(),
            project_from(dirs@, i as int) == project_from(dirs@, 0),
            texts(notes@) + notes_from(dirs@, i as int) == notes_from(dirs@, 0),
        decreases dirs.len() - i,
    {
        let ghost before = texts(notes@);
        let (project, mut more) = dirs[i].read();
        notes.append(&mut more);
        if let Some(mut cfg) = project {
            cfg.rootdir = dirs[i].path.clone();
            assert(cfg@ =~= project_from(dirs@, 0));
            return (cfg, notes);
        }
        assert(before + (dirs@[i as int].notes() + notes_from(dirs@, i + 1)) =~= texts(notes@)
            + notes_from(dirs@, i + 1));
        i += 1;
    }
    assert(texts(notes@) + Seq::empty() =~= texts(notes@));
    (ProjectConfig::default(), notes)
}

/// The runner's own settings, from `[tool.rstest]`.
#[derive(Debug, Clone)]
pub struct RstestSettings {
    pub numprocesses: Option<String>,
    pub dist: Option<String>,
    pub reruns: Option<u32>,
    /// Rerun only tests that were flaky before.
    pub reruns_only_known_flaky: Option<bool>,
    pub worker_timeout: Option<u64>,
    /// Patterns of subprojects, relative to the directory of the file.
    pub projects: Option<Vec<String>>,
    pub collect: Option<String>,
    pub output: Option<String>,
}

/// [`RstestSettings`] in characters.
#[verifier::ext_equal]
pub struct SettingsModel {
    pub numprocesses: Option<Seq<char>>,
    pub dist: Option<Seq<char>>,
    pub reruns: Option<u32>,
    pub reruns_only_known_flaky: Option<bool>,
    pub worker_timeout: Option<u64>,
    pub projects: Option<Seq<Seq<char>>>,
    pub collect: Option<Seq<char>>,
    pub output: Option<Seq<char>>,
}

/// The characters of a list that may be missing.
pub open spec fn opt_texts(v: Option<Vec<String>>) -> Option<Seq<Seq<char>>> {
    match v {
        Some(l) => Some(texts(l@)),
        None => None,
    }
}

impl View for RstestSettings {
    type V = SettingsModel;

    open spec fn view(&self) -> SettingsModel {
        SettingsModel {
            numprocesses: opt_text(self.numprocesses),
            dist: opt_text(self.dist),
            reruns: self.reruns,
            reruns_only_known_flaky: self.reruns_only_known_flaky,
            worker_timeout: self.worker_timeout,
            projects: opt_texts(self.projects),
            collect: opt_text(self.collect),
            output: opt_text(self.output),
        }
    }
}

/// No settings at all.
pub open spec fn no_settings() -> SettingsModel {
    SettingsModel {
        numprocesses: None,
        dist: None,
        reruns: None,
        reruns_only_known_flaky: None,
        worker_timeout: None,
        projects: None,
        collect: None,
        output: None,
    }
}

impl Default for RstestSettings {
    fn default() -> (res: Self)
        ensures
            res@ == no_settings(),
    {
        RstestSettings {
            numprocesses: None,
            dist: None,
            reruns: None,
            reruns_only_known_flaky: None,
            worker_timeout: None,
            projects: None,
            collect: None,
            output: None,
        }
    }
}

/// A text under a key.
pub open spec fn text_under(t: TomlTree, key: Seq<char>) -> Option<Seq<char>> {
    match t.entry(key) {
        Some(TomlTree::Text(s)) => Some(s),
        _ => None,
    }
}

/// A number under a key that lies between 0 and `max`.
pub open spec fn number_under(t: TomlTree, key: Seq<char>, max: int) -> Option<int> {
    match t.entry(key) {
        Some(TomlTree::Integer(n)) => if 0 <= n <= max {
            Some(n)
        } else {
            None
        },
        _ => None,
    }
}

fn read_text(t: &toml::Value, key: &str) -> (res: Option<String>)
    ensures
        opt_text(res) == text_under(toml_tree(*t), key@),
{
    match entry(t, key) {
        Some(v) => match node(v) {
            TomlNode::Text(s) => Some(s.to_owned()),
            _ => None,
        },
        None => None,
    }
}

fn read_number(t: &toml::Value, key: &str, max: u64) -> (res: Option<u64>)
    ensures
        match res {
            Some(n) => number_under(toml_tree(*t), key@, max as int) == Some(n as int),
            None => number_under(toml_tree(*t), key@, max as int) is None,
        },
{
    match entry(t, key) {
        Some(v) => match node(v) {
            TomlNode::Integer(n) => if n >= 0 && n as u64 <= max {
                Some(n as u64)
            } else {
                None
            },
            _ => None,
        },
        None => None,
    }
}

/// The settings in `[tool.rstest]`. Numbers that are negative or do not fit are
/// ignored, as is anything of another kind.
pub open spec fn settings_of(t: TomlTree) -> SettingsModel {
    SettingsModel {
        numprocesses: match t.entry("numprocesses"@) {
            Some(TomlTree::Integer(n)) => if n >= 0 {
                Some(decimal(n as nat))
            } else {
                None
            },
            Some(TomlTree::Text(s)) => Some(s),
            _ => None,
        },
        dist: text_under(t, "dist"@),
        reruns: match number_under(t, "reruns"@, u32::MAX as int) {
            Some(n) => Some(n as u32),
            None => None,
        },
        reruns_only_known_flaky: match t.entry("reruns-only-known-flaky"@) {
            Some(TomlTree::Boolean(b)) => Some(b),
            _ => None,
        },
        worker_timeout: match number_under(t, "worker-timeout"@, u64::MAX as int) {
            Some(n) => Some(n as u64),
            None => None,
        },
        projects: match t.entry("projects"@) {
            Some(TomlTree::List(items)) => Some(texts_in(items)),
            _ => None,
        },
        collect: text_under(t, "collect"@),
        output: text_under(t, "output"@),
    }
}

/// Reads the settings from the `[tool.rstest]` table.
pub fn read_settings(t: &toml::Value) -> (res: RstestSettings)
    ensures
        res@ == settings_of(toml_tree(*t)),
{
    let numprocesses = match entry(t, "numprocesses") {
        Some(v) => match node(v) {
            TomlNode::Integer(n) => if n >= 0 {
                Some(dec(n as u64))
            } else {
                None
            },
            TomlNode::Text(s) => Some(s.to_owned()),
            _ => None,
        },
        None => None,
    };
    let reruns = match read_number(t, "reruns", u32::MAX as u64) {
        Some(n) => Some(n as u32),
        None => None,
    };
    let reruns_only_known_flaky = match entry(t, "reruns-only-known-flaky") {
        Some(v) => match node(v) {
            TomlNode::Boolean(b) => Some(b),
            _ => None,
        },
        None => None,
    };
    let projects = match entry(t, "projects") {
        Some(v) => match node(v) {
            TomlNode::List(items) => Some(list_texts(items)),
            _ => None,
        },
        None => None,
    };
    RstestSettings {
        numprocesses,
        dist: read_text(t, "dist"),
        reruns,
        reruns_only_known_flaky,
        worker_timeout: read_number(t, "worker-timeout", u64::MAX),
        projects,
        collect: read_text(t, "collect"),
        output: read_text(t, "output"),
    }
}

/// The settings of a document; none where it has no `[tool.rstest]`.
pub open spec fn document_settings(doc: TomlTree) -> SettingsModel {
    match doc.entry("tool"@) {
        None => no_settings(),
        Some(tool) => match tool.entry("rstest"@) {
            None => no_settings(),
            Some(t) => settings_of(t),
        },
    }
}

/// Reads the settings of a document.
pub fn settings_in(doc: &toml::Value) -> (res: RstestSettings)
    ensures
        res@ == document_settings(toml_tree(*doc)),
{
    match entry(doc, "tool") {
        None => RstestSettings::default(),
        Some(tool) => match entry(tool, "rstest") {
            None => RstestSettings::default(),
            Some(t) => read_settings(t),
        },
    }
}

/// A `pyproject.toml`, and its text where it can be read.
pub struct PyprojectFile {
    pub path: String,
    pub text: Option<String>,
}

/// The settings of the nearest well-formed document, from the `i`-th file on.
pub open spec fn settings_from(files: Seq<PyprojectFile>, i: int) -> SettingsModel
    decreases files.len() - i,
{
    if i >= files.len() {
        no_settings()
    } else {
        match opt_text(files[i].text) {
            None => settings_from(files, i + 1),
            Some(text) => match toml_document(text) {
                Ok(doc) => document_settings(doc),
                Err(_) => settings_from(files, i + 1),
            },
        }
    }
}

/// The notes written while looking for it.
pub open spec fn settings_notes_from(files: Seq<PyprojectFile>, i: int) -> Seq<Seq<char>>
    decreases files.len() - i,
{
    if i >= files.len() {
        Seq::empty()
    } else {
        match opt_text(files[i].text) {
            None => settings_notes_from(files, i + 1),
            Some(text) => match toml_document(text) {
                Ok(_) => Seq::empty(),
                Err(words) => seq![malformed_note(files[i].path@, words)] + settings_notes_from(
                    files,
                    i + 1,
                ),
            },
        }
    }
}

/// Reads the runner's settings: `files` are the `pyproject.toml` of the starting
/// directory and of its ancestors. The nearest well-formed one decides, even
/// where it has no such settings. Also gives the notes on what was ignored.
pub fn rstest_settings(files: &[PyprojectFile]) -> (res: (RstestSettings, Vec<String>))
    ensures
        res.0@ == settings_from(files@, 0),
        texts(res.1@) == settings_notes_from(files@, 0),
{
    let mut notes: Vec<String> = Vec::new();
    let mut i: usize = 0;
    assert(texts(notes@) + settings_notes_from(files@, 0) =~= settings_notes_from(files@, 0));
    while i < files.len()
        invariant
            i <= files.len(),
            settings_from(files@, i as int) == settings_from(files@, 0),
            texts(notes@) + settings_notes_from(files@, i as int) == settings_notes_from(files@, 0),
        decreases files.len() - i,
    {
        let ghost before = texts(notes@);
        if let Some(text) = &files[i].text {
            match parse_document(text.as_str()) {
                Ok(doc) => {
                    assert(texts(notes@) + Seq::empty() =~= texts(notes@));
                    return (settings_in(&doc), notes);
                },
                Err(words) => {
                    let note = note_malformed(files[i].path.as_str(), words.as_str());
                    notes.push(note);
                    assert(before + (seq![note@] + settings_notes_from(files@, i + 1)) =~= texts(
                        notes@,
                    ) + settings_notes_from(files@, i + 1));
                },
            }
        }
        i += 1;
    }
    assert(texts(notes@) + Seq::empty() =~= texts(notes@));
    (RstestSettings::default(), notes)
}

/// What a line without white space around it is: a header where it stands in brackets, a
/// comment where it begins with a number sign or a semicolon, and else content. With a blank
/// or a tab before it, it is a comment or content.
pub proof fn theorem_kinds_of_lines(raw: Seq<char>, blank: char)
    requires
        raw.len() > 0,
        !crate::text::is_space(raw[0]),
        !crate::text::is_space(raw.last()),
        blank == ' ' || blank == '\t',
    ensures
        raw.len() >= 2 && raw[0] == '[' && raw.last() == ']' ==> ini_line(raw) == IniLine::Header(
            raw.subrange(1, raw.len() - 1),
        ),
        raw[0] == '#' || raw[0] == ';' ==> ini_line(raw) is Comment && ini_line(
            seq![blank] + raw,
        ) is Comment,
        raw[0] != '#' && raw[0] != ';' && raw[0] != '[' ==> ini_line(raw) == (IniLine::Content {
            indented: false,
            content: raw,
        }),
        raw[0] != '#' && raw[0] != ';' ==> ini_line(seq![blank] + raw) == (IniLine::Content {
            indented: true,
            content: raw,
        }),
        ini_line(Seq::empty()) is Blank,
        ini_line(seq![blank]) is Blank,
{
    assert(trim_back(raw) == raw);
    assert(trim_front(raw) == raw);
    let s = seq![blank] + raw;
    assert(s.last() == raw.last());
    assert(trim_back(s) == s);
    assert(s.skip(1) =~= raw);
    assert(trim_front(s) == trim_front(raw));
    reveal_with_fuel(trim_back, 2);
    let one = seq![blank];
    assert(one.drop_last() =~= Seq::empty());
    assert(trim_back(one) == Seq::<char>::empty());
}

/// A setting is named before the first equals sign or colon, and its values are the words
/// after that; a line with neither sets nothing.
pub proof fn theorem_settings_have_a_name(name: Seq<char>, rest: Seq<char>)
    requires
        !name.contains('='),
        !name.contains(':'),
    ensures
        key_in(name + seq!['='] + rest) == Some((trimmed(name), words(rest))),
        key_in(name + seq![':'] + rest) == Some((trimmed(name), words(rest))),
        key_in(name) is None,
{
    let a = name + seq!['='] + rest;
    let b = name + seq![':'] + rest;
    let n = name.len() as int;
    crate::text::lemma_pos_is(a, '=', n);
    crate::text::lemma_pos_is(b, ':', n);
    crate::text::lemma_pos(a, ':');
    crate::text::lemma_pos(b, '=');
    if pos(a, ':') < n {
        assert(name[pos(a, ':')] == ':');
    }
    if pos(b, '=') < n {
        assert(name[pos(b, '=')] == '=');
    }
    assert(a[n] == '=' && b[n] == ':');
    assert(a.take(n) =~= name && b.take(n) =~= name);
    assert(a.skip(n + 1) =~= rest && b.skip(n + 1) =~= rest);
    crate::text::lemma_pos_is(name, '=', n);
    crate::text::lemma_pos_is(name, ':', n);
}

/// Settings are read below the header of the section and up to the next one, and nowhere else.
pub proof fn theorem_settings_stand_in_their_section(
    st: IniState,
    name: Seq<char>,
    section: Seq<char>,
    content: Seq<char>,
    indented: bool,
)
    ensures
        st.after(IniLine::Header(name), section).in_section <==> name == section,
        st.after(IniLine::Header(name), section).found <==> st.found || name == section,
        st.after(IniLine::Header(name), section).key is None,
        !st.in_section ==> st.after(IniLine::Content { indented, content }, section) == st,
        st.in_section ==> st.after(IniLine::Content { indented, content }, section).in_section,
        st.after(IniLine::Content { indented, content }, section).found == st.found,
{
}

/// A line that is indented goes on with the values of the setting before it; one that is not,
/// or that no setting stands before, begins the next.
pub proof fn theorem_values_go_on_below(
    st: IniState,
    section: Seq<char>,
    content: Seq<char>,
    key: Seq<char>,
    values: Seq<Seq<char>>,
)
    requires
        st.in_section,
    ensures
        st.key == Some((key, values)) ==> st.after(
            IniLine::Content { indented: true, content },
            section,
        ).key == Some((key, values + words(content))),
        st.key is None ==> st.after(IniLine::Content { indented: true, content }, section).key
            == key_in(content),
        st.after(IniLine::Content { indented: false, content }, section).key == key_in(content),
        st.after(IniLine::Content { indented: false, content }, section).python_files
            == st.closed().python_files,
        st.after(IniLine::Content { indented: false, content }, section).testpaths
            == st.closed().testpaths,
{
}

/// Two settings count: the patterns of test files and the paths of tests, each where it has a
/// value; the last one given counts.
pub proof fn theorem_two_settings_count(st: IniState, key: Seq<char>, values: Seq<Seq<char>>)
    requires
        st.key == Some((key, values)),
    ensures
        key == "python_files"@ && values.len() > 0 ==> st.closed().python_files == values,
        key != "python_files"@ || values.len() == 0 ==> st.closed().python_files == st.python_files,
        key == "testpaths"@ && values.len() > 0 ==> st.closed().testpaths == values,
        key != "testpaths"@ || values.len() == 0 ==> st.closed().testpaths == st.testpaths,
{
    reveal_strlit("python_files");
    reveal_strlit("testpaths");
    assert("python_files"@.len() == 12);
    assert("testpaths"@.len() == 9);
}

proof fn lemma_section_found(raws: Seq<Seq<char>>, n: int, section: Seq<char>)
    requires
        0 <= n <= raws.len(),
    ensures
        ini_after(raws, n, section).found <==> exists|i: int|
            0 <= i < n && ini_line(#[trigger] raws[i]) == IniLine::Header(section),
    decreases n,
{
    if n > 0 {
        lemma_section_found(raws, n - 1, section);
        if ini_line(raws[n - 1]) == IniLine::Header(section) {
            assert(ini_after(raws, n, section).found);
        }
    }
}

/// A file configures tests just where it has the section.
pub proof fn theorem_the_section_configures(text: Seq<char>, section: Seq<char>)
    ensures
        ini_project(text, section) is Some <==> exists|i: int|
            0 <= i < lines_of(text).len() && ini_line(#[trigger] lines_of(text)[i])
                == IniLine::Header(section),
        ini_project(text, section) matches Some(p) ==> p.rootdir == "."@,
{
    lemma_section_found(lines_of(text), lines_of(text).len() as int, section);
}

/// A list gives its texts, whatever else it holds; a text gives its words; anything else gives
/// nothing.
pub proof fn theorem_lists_of_texts(items: Seq<TomlTree>, s: Seq<char>, other: TomlTree)
    ensures
        text_list(TomlTree::List(items.push(TomlTree::Text(s)))) == text_list(
            TomlTree::List(items),
        ).push(s),
        !(other is Text) ==> text_list(TomlTree::List(items.push(other))) == text_list(
            TomlTree::List(items),
        ),
        text_list(TomlTree::List(Seq::empty())).len() == 0,
        text_list(TomlTree::Text(s)) == words(s),
        !(other is Text) && !(other is List) ==> text_list(other).len() == 0,
{
    assert(items.push(TomlTree::Text(s)).drop_last() =~= items);
    assert(items.push(other).drop_last() =~= items);
}

/// The table of pytest's options configures tests; what it does not set has the default.
pub proof fn theorem_options_of_pytest(
    doc: TomlTree,
    tool: TomlTree,
    pytest: TomlTree,
    ini: TomlTree,
)
    requires
        doc.entry("tool"@) == Some(tool),
        tool.entry("pytest"@) == Some(pytest),
    ensures
        pytest.entry("ini_options"@) is None ==> pyproject_project(doc) is None,
        pytest.entry("ini_options"@) == Some(ini) ==> (pyproject_project(doc) matches Some(p) && (
        ini.entry("python_files"@) matches Some(v) ==> p.python_files == text_list(v)) && (
        ini.entry("testpaths"@) matches Some(v) ==> p.testpaths == text_list(v)) && (ini.entry(
            "python_files"@,
        ) is None ==> p.python_files == seq!["test_*.py"@, "*_test.py"@]) && (ini.entry(
            "testpaths"@,
        ) is None ==> p.testpaths.len() == 0)),
{
}

/// Without the tables on the way there, a document configures no tests.
pub proof fn theorem_documents_without_options(doc: TomlTree)
    ensures
        doc.entry("tool"@) is None ==> pyproject_project(doc) is None && document_settings(doc)
            == no_settings(),
        doc.entry("tool"@) matches Some(tool) ==> (tool.entry("pytest"@) is None
            ==> pyproject_project(doc) is None),
        doc.entry("tool"@) matches Some(tool) ==> (tool.entry("rstest"@) is None
            ==> document_settings(doc) == no_settings()),
        doc.entry("tool"@) matches Some(tool) ==> (tool.entry("rstest"@) matches Some(t)
            ==> document_settings(doc) == settings_of(t)),
{
}

/// Of a directory's files the first that configures tests counts: that of pytest, that of the
/// project, that of tox, that of the setup, in this order.
pub proof fn theorem_first_file_configures(dir: ConfigDir)
    ensures
        dir.pytest_ini matches Some(t) ==> (ini_project(t@, "pytest"@) is Some ==> dir.project()
            == ini_project(t@, "pytest"@)),
        ini_file_project(opt_text(dir.pytest_ini), "pytest"@) is None ==> (
        dir.pyproject matches Some(t) ==> (toml_document(t@) matches Ok(doc) ==> (
        pyproject_project(doc) is Some ==> dir.project() == pyproject_project(doc)))),
        ini_file_project(opt_text(dir.pytest_ini), "pytest"@) is None && dir.pyproject is None ==> (
        dir.tox_ini matches Some(t) ==> (ini_project(t@, "pytest"@) is Some ==> dir.project()
            == ini_project(t@, "pytest"@))),
        dir.pytest_ini is None && dir.pyproject is None && dir.tox_ini is None ==> (
        dir.setup_cfg matches Some(t) ==> dir.project() == ini_project(t@, "tool:pytest"@)),
        dir.pytest_ini is None && dir.pyproject is None && dir.tox_ini is None && dir.setup_cfg is None
            ==> dir.project() is None,
{
}

/// A project file that cannot be read is told of, unless pytest's own file counts before it,
/// and the files after it count as if it were not there.
pub proof fn theorem_files_that_cannot_be_read(dir: ConfigDir, words: Seq<char>)
    requires
        ini_file_project(opt_text(dir.pytest_ini), "pytest"@) is None,
        dir.pyproject matches Some(t) && toml_document(t@) == Err::<TomlTree, Seq<char>>(words),
    ensures
        dir.notes() == seq![malformed_note(dir.pyproject_path(), words)],
        dir.tox_ini matches Some(t) ==> (ini_project(t@, "pytest"@) is Some ==> dir.project()
            == ini_project(t@, "pytest"@)),
{
}

/// The first directory that configures tests is the root, and where none does, the defaults
/// count.
pub proof fn theorem_nearest_configuration_counts(dirs: Seq<ConfigDir>, i: int, k: int)
    requires
        0 <= i <= k <= dirs.len(),
        forall|j: int| i <= j < k ==> (#[trigger] dirs[j]).project() is None,
    ensures
        k < dirs.len() ==> (dirs[k].project() matches Some(p) ==> project_from(dirs, i).rootdir
            == dirs[k].path@ && project_from(dirs, i).python_files == p.python_files
            && project_from(dirs, i).testpaths == p.testpaths),
        k == dirs.len() ==> project_from(dirs, i).rootdir == "."@ && project_from(
            dirs,
            i,
        ).python_files == seq!["test_*.py"@, "*_test.py"@] && project_from(dirs, i).testpaths.len()
            == 0,
    decreases k - i,
{
    if i < k {
        assert(dirs[i].project() is None);
        theorem_nearest_configuration_counts(dirs, i + 1, k);
    }
}

/// Each setting is read from its key, where its value has the right kind; a number is read
/// where it is not negative and fits.
pub proof fn theorem_settings_are_read(t: TomlTree, s: Seq<char>, n: int, b: bool, l: Seq<TomlTree>)
    ensures
        t.entry("numprocesses"@) == Some(TomlTree::Text(s)) ==> settings_of(t).numprocesses == Some(
            s,
        ),
        t.entry("numprocesses"@) == Some(TomlTree::Integer(n)) && n >= 0 ==> settings_of(
            t,
        ).numprocesses == Some(decimal(n as nat)),
        t.entry("numprocesses"@) == Some(TomlTree::Integer(n)) && n < 0 ==> settings_of(
            t,
        ).numprocesses is None,
        t.entry("dist"@) == Some(TomlTree::Text(s)) ==> settings_of(t).dist == Some(s),
        t.entry("reruns"@) == Some(TomlTree::Integer(n)) && 0 <= n <= 0xFFFFFFFF ==> (settings_of(
            t,
        ).reruns matches Some(r) && r == n),
        t.entry("reruns"@) == Some(TomlTree::Integer(n)) && (n < 0 || n > 0xFFFFFFFF)
            ==> settings_of(t).reruns is None,
        t.entry("reruns-only-known-flaky"@) == Some(TomlTree::Boolean(b)) ==> settings_of(
            t,
        ).reruns_only_known_flaky == Some(b),
        t.entry("worker-timeout"@) == Some(TomlTree::Integer(n)) && 0 <= n <= 0x7FFFFFFFFFFFFFFF
            ==> (settings_of(t).worker_timeout matches Some(r) && r == n),
        t.entry("worker-timeout"@) == Some(TomlTree::Integer(n)) && n < 0 ==> settings_of(
            t,
        ).worker_timeout is None,
        t.entry("projects"@) == Some(TomlTree::List(l)) ==> settings_of(t).projects == Some(
            texts_in(l),
        ),
        t.entry("collect"@) == Some(TomlTree::Text(s)) ==> settings_of(t).collect == Some(s),
        t.entry("output"@) == Some(TomlTree::Text(s)) ==> settings_of(t).output == Some(s),
{
}

/// A setting that is not given is not read from elsewhere.
pub proof fn theorem_settings_that_are_not_given(t: TomlTree)
    ensures
        t.entry("numprocesses"@) is None ==> settings_of(t).numprocesses is None,
        t.entry("dist"@) is None ==> settings_of(t).dist is None,
        t.entry("reruns"@) is None ==> settings_of(t).reruns is None,
        t.entry("reruns-only-known-flaky"@) is None ==> settings_of(t).reruns_only_known_flaky is None,
        t.entry("worker-timeout"@) is None ==> settings_of(t).worker_timeout is None,
        t.entry("projects"@) is None ==> settings_of(t).projects is None,
        t.entry("collect"@) is None ==> settings_of(t).collect is None,
        t.entry("output"@) is None ==> settings_of(t).output is None,
{
}

/// The first project file that can be read gives the settings, whether it has any or not; one
/// that cannot is told of and passed over.
pub proof fn theorem_first_readable_file_counts(
    files: Seq<PyprojectFile>,
    i: int,
    text: Seq<char>,
)
    requires
        0 <= i < files.len(),
    ensures
        files[i].text is None ==> settings_from(files, i) == settings_from(files, i + 1)
            && settings_notes_from(files, i) == settings_notes_from(files, i + 1),
        files[i].text matches Some(t) ==> (toml_document(t@) matches Ok(doc) ==> settings_from(
            files,
            i,
        ) == document_settings(doc) && settings_notes_from(files, i).len() == 0),
        files[i].text matches Some(t) ==> (toml_document(t@) matches Err(words) ==> settings_from(
            files,
            i,
        ) == settings_from(files, i + 1) && settings_notes_from(files, i) == seq![
            malformed_note(files[i].path@, words),
        ] + settings_notes_from(files, i + 1)),
        settings_from(files, files.len() as int) == no_settings(),
{
}

/// What could not be read is told of on the way to the first directory that configures tests,
/// and no further.
pub proof fn theorem_notes_on_the_way(dirs: Seq<ConfigDir>, i: int)
    requires
        0 <= i < dirs.len(),
    ensures
        dirs[i].project() is Some ==> notes_from(dirs, i) == dirs[i].notes(),
        dirs[i].project() is None ==> notes_from(dirs, i) == dirs[i].notes() + notes_from(
            dirs,
            i + 1,
        ),
        notes_from(dirs, dirs.len() as int).len() == 0,
        dirs[i].pyproject is None ==> dirs[i].notes().len() == 0,
{
}

/// Reading starts outside every section, with nothing found and the defaults in place.
pub proof fn theorem_where_reading_starts(section: Seq<char>)
    ensures
        !IniState::start().in_section && !IniState::start().found,
        IniState::start().key is None,
        IniState::start().python_files == seq!["test_*.py"@, "*_test.py"@],
        IniState::start().testpaths.len() == 0,
        ini_project(Seq::empty(), section) is None,
{
    assert(lines_of(Seq::empty()).len() == 0);
}

} // verus!
