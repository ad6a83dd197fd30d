//! The arguments of a run, and the files that it reads and writes.
use vstd::prelude::*;
use vstd::string::*;
use crate::compiler::emit::files_of;
use crate::lists::{empty, push};
use crate::parsing::decl::{RelDecl, RelDeclModel};
use crate::text::{law_parts_part_at_separators, nat_text, split_str, split_text, usize_to_text};

verus! {

/// The arguments of a run.
#[derive(Debug)]
pub struct Args {
    pub program: String,
    pub facts: String,
    pub csvs: Option<String>,
    pub delimiter: String,
    pub fat_mode: bool,
    pub no_sharing: bool,
    pub workers: usize,
    pub opt_level: Option<u8>,
}

/// The last part that names something: neither empty nor a single dot.
pub open spec fn last_named(parts: Seq<Seq<char>>) -> Option<Seq<char>>
    decreases parts.len(),
{
    if parts.len() == 0 {
        None
    } else if parts.last().len() == 0 || parts.last() == "."@ {
        last_named(parts.drop_last())
    } else {
        Some(parts.last())
    }
}

/// The place of the last dot.
pub open spec fn last_dot(s: Seq<char>) -> Option<nat>
    decreases s.len(),
{
    if s.len() == 0 {
        None
    } else if s.last() == '.' {
        Some((s.len() - 1) as nat)
    } else {
        last_dot(s.drop_last())
    }
}

/// A file name without its ending. A dot in front is no start of an ending.
pub open spec fn without_ending(name: Seq<char>) -> Seq<char> {
    match last_dot(name) {
        Some(k) if k > 0 => name.take(k as int),
        _ => name,
    }
}

/// The name of the file at a path, without directories and without its ending.
pub open spec fn stem_of(path: Seq<char>) -> Option<Seq<char>> {
    match last_named(split_text(path, '/')) {
        Some(name) => if name == ".."@ {
            None
        } else {
            Some(without_ending(name))
        },
        None => None,
    }
}

fn find_last_dot(s: &str) -> (place: Option<usize>)
    ensures
        match place {
            Some(k) => last_dot(s@) == Some(k as nat) && k < s@.len(),
            None => last_dot(s@) is None,
        },
{
    let mut i: usize = s.unicode_len();
    assert(s@.take(i as int) =~= s@);
    while i > 0
        invariant
            i <= s@.len(),
            last_dot(s@) == last_dot(s@.take(i as int)),
        decreases i,
    {
        assert(s@.take(i as int).drop_last() =~= s@.take(i - 1));
        assert(s@.take(i as int).last() == s@[i - 1]);
        if s.get_char(i - 1) == '.' {
            return Some(i - 1);
        }
        i -= 1;
    }
    None
}

/// The name of the file at a path, without directories and without its ending.
pub fn file_stem(path: &str) -> (stem: Option<String>)
    ensures
        stem.deep_view() == stem_of(path@),
{
    let parts = split_str(path, '/');
    let ghost model = parts.deep_view();
    let mut i: usize = parts.len();
    assert(model.take(i as int) =~= model);
    while i > 0
        invariant
            i <= parts.len(),
            model == parts.deep_view(),
            model == split_text(path@, '/'),
            last_named(model) == last_named(model.take(i as int)),
        decreases i,
    {
        assert(model.take(i as int).drop_last() =~= model.take(i - 1));
        assert(model.take(i as int).last() == model[i - 1]);
        assert(model[i - 1] == parts@[i - 1]@);
        let name = parts[i - 1].as_str();
        if name.unicode_len() > 0 && !crate::text::same_text(name, ".") {
            if crate::text::same_text(name, "..") {
                return None;
            }
            return match find_last_dot(name) {
                Some(k) if k > 0 => {
                    let stem = name.substring_char(0, k).to_owned();
                    assert(stem@ =~= name@.take(k as int));
                    Some(stem)
                },
                _ => Some(name.to_owned()),
            };
        }
        i -= 1;
    }
    None
}

impl Args {
    pub fn new(
        program: String,
        facts: String,
        csvs: Option<String>,
        delimiter: String,
        workers: usize,
    ) -> (args: Self)
        ensures
            args.program == program,
            args.facts == facts,
            args.csvs == csvs,
            args.delimiter == delimiter,
            args.workers == workers,
            !args.fat_mode,
            !args.no_sharing,
            args.opt_level is None,
    {
        Args {
            program,
            facts,
            csvs,
            delimiter,
            fat_mode: false,
            no_sharing: false,
            workers,
            opt_level: None,
        }
    }

    pub fn program(&self) -> (program: &String)
        ensures
            *program == self.program,
    {
        &self.program
    }

    /// The name of the program by its path.
    pub fn program_name(&self) -> (name: String)
        ensures
            name@ == match stem_of(self.program@) {
                Some(stem) => stem,
                None => "unknown_program"@,
            },
    {
        match file_stem(self.program.as_str()) {
            Some(stem) => stem,
            None => "unknown_program".to_owned(),
        }
    }

    pub fn facts(&self) -> (facts: String)
        ensures
            facts@ == self.facts@,
    {
        self.facts.clone()
    }

    pub fn csvs(&self) -> (csvs: Option<String>)
        ensures
            csvs.deep_view() == self.csvs.deep_view(),
    {
        match &self.csvs {
            Some(csvs) => Some(csvs.clone()),
            None => None,
        }
    }

    pub fn delimiter(&self) -> (delimiter: &String)
        ensures
            *delimiter == self.delimiter,
    {
        &self.delimiter
    }

    pub fn fat_mode(&self) -> (answer: bool)
        ensures
            answer == self.fat_mode,
    {
        self.fat_mode
    }

    pub fn no_sharing(&self) -> (answer: bool)
        ensures
            answer == self.no_sharing,
    {
        self.no_sharing
    }

    /// The arguments that say how many workers there are.
    pub fn timely_args(&self) -> (args: Vec<String>)
        ensures
            args.deep_view() == seq!["-w"@, nat_text(self.workers as nat)],
    {
        let mut args: Vec<String> = empty();
        push(&mut args, "-w".to_owned());
        push(&mut args, usize_to_text(self.workers));
        assert(args.deep_view() =~= seq!["-w"@, nat_text(self.workers as nat)]);
        args
    }

    pub fn opt_level(&self) -> (level: Option<u8>)
        ensures
            level == self.opt_level,
    {
        self.opt_level
    }
}

/// The file with the facts of a relation.
pub open spec fn fact_path_text(facts: Seq<char>, decl: RelDeclModel) -> Seq<char> {
    match decl.path {
        Some(path) => facts + "/"@ + path,
        None => facts + "/"@ + decl.name + ".facts"@,
    }
}

pub fn fact_path(facts: &str, decl: &RelDecl) -> (out: String)
    ensures
        out@ == fact_path_text(facts@, decl.deep_view()),
{
    let mut out = facts.to_owned();
    out.append("/");
    match decl.path() {
        Some(path) => {
            out.append(path.as_str());
        },
        None => {
            out.append(decl.name());
            out.append(".facts");
        },
    }
    out
}

/// The file that the rows of a relation are written to.
pub fn csv_path(csvs: &str, relation: &str) -> (out: String)
    ensures
        out@ == csvs@ + "/csvs/"@ + relation@ + ".csv"@,
{
    let mut out = csvs.to_owned();
    out.append("/csvs/");
    out.append(relation);
    out.append(".csv");
    out
}

/// The file that the sizes of relations are written to.
pub fn size_path(csvs: &str) -> (out: String)
    ensures
        out@ == csvs@ + "/csvs/size.txt"@,
{
    let mut out = csvs.to_owned();
    out.append("/csvs/size.txt");
    out
}

/// The file that the time of a run is written to.
pub fn time_path(program: &str, facts: &str, opt_level: Option<u8>) -> (out: String)
    ensures
        out@ == "result/time/"@ + program@ + "_"@ + facts@ + "_"@ + (match opt_level {
            Some(level) => nat_text(level as nat),
            None => "none"@,
        }) + ".txt"@,
{
    let mut out = "result/time/".to_owned();
    out.append(program);
    out.append("_");
    out.append(facts);
    out.append("_");
    match opt_level {
        Some(level) => {
            out.append(usize_to_text(level as usize).as_str());
        },
        None => {
            out.append("none");
        },
    }
    out.append(".txt");
    out
}

/// The program in a file is named like the file, without its directory and without what
/// stands behind the last dot. A slash at the end does not count.
pub proof fn law_files_are_named_by_their_stems(
    directory: Seq<char>,
    name: Seq<char>,
    ending: Seq<char>,
)
    requires
        name.len() > 0,
        !name.contains('/'),
        !name.contains('.'),
        !ending.contains('/'),
        !ending.contains('.'),
    ensures
        stem_of(name) == Some(name),
        stem_of(name.push('.') + ending) == Some(name),
        stem_of(directory.push('/') + name) == Some(name),
        stem_of(directory.push('/') + (name.push('.') + ending)) == Some(name),
        stem_of(directory.push('/')) == stem_of(directory),
{
    let file = name.push('.') + ending;
    assert(!file.contains('/')) by {
        assert forall|i: int| 0 <= i < file.len() implies file[i] != '/' by {
            if i < name.len() {
                assert(name.contains(name[i]));
            } else if i > name.len() {
                assert(ending.contains(ending[i - name.len() - 1]));
            }
        }
    }
    lemma_no_dot(name);
    lemma_dot(name, ending);
    assert(file.take(name.len() as int) =~= name);
    lemma_stem(directory, name);
    lemma_stem(directory, file);
    assert(file[name.len() as int] == '.');
    assert(file.contains('.'));
    law_parts_part_at_separators(directory, Seq::empty(), '/');
    assert(split_text(Seq::empty(), '/') =~= seq![Seq::empty()]);
    let parts = split_text(directory, '/');
    assert(directory.push('/') + Seq::empty() =~= directory.push('/'));
    assert(parts + seq![Seq::empty()] =~= parts.push(Seq::empty()));
    assert(parts.push(Seq::empty()).drop_last() =~= parts);
}

proof fn lemma_no_dot(s: Seq<char>)
    requires
        !s.contains('.'),
    ensures
        last_dot(s) is None,
    decreases s.len(),
{
    if s.len() > 0 {
        let front = s.drop_last();
        assert(s.contains(s.last()));
        assert forall|i: int| 0 <= i < front.len() implies front[i] != '.' by {
            assert(s.contains(s[i]));
        }
        lemma_no_dot(front);
    }
}

proof fn lemma_dot(name: Seq<char>, ending: Seq<char>)
    requires
        !ending.contains('.'),
    ensures
        last_dot(name.push('.') + ending) == Some(name.len()),
    decreases ending.len(),
{
    let all = name.push('.') + ending;
    if ending.len() == 0 {
        assert(all =~= name.push('.'));
    } else {
        let front = ending.drop_last();
        assert(ending.contains(ending.last()));
        assert forall|i: int| 0 <= i < front.len() implies front[i] != '.' by {
            assert(ending.contains(ending[i]));
        }
        lemma_dot(name, front);
        assert(all.drop_last() =~= name.push('.') + front);
        assert(all.last() == ending.last());
    }
}

proof fn lemma_stem(directory: Seq<char>, file: Seq<char>)
    requires
        file.len() > 0,
        file[0] != '.',
        !file.contains('/'),
    ensures
        stem_of(file) == Some(without_ending(file)),
        stem_of(directory.push('/') + file) == Some(without_ending(file)),
{
    reveal_strlit(".");
    reveal_strlit("..");
    assert("."@[0] == '.');
    assert(".."@[0] == '.');
    law_parts_part_at_separators(file, Seq::empty(), '/');
    law_parts_part_at_separators(directory, file, '/');
    let parts = split_text(directory, '/') + seq![file];
    assert(parts.last() == file);
    assert(seq![file].last() == file);
}

/// The facts of a relation are read from the directory of the facts: from the file that
/// its declaration names, and else from the one that is named like the relation, which is
/// the one that written facts of the relation go to.
pub proof fn law_facts_are_read_where_they_are_written(
    directory: Seq<char>,
    decl: RelDeclModel,
    facts: Seq<(Seq<char>, Seq<Seq<i32>>)>,
    i: int,
)
    requires
        0 <= i < facts.len(),
        facts[i].0 == decl.name,
    ensures
        decl.path is None ==> fact_path_text(directory, decl) == directory + "/"@ + files_of(
            facts,
        )[i].0,
        decl.path matches Some(path) ==> fact_path_text(directory, decl) == directory + "/"@
            + path,
{
    assert(directory + "/"@ + decl.name + ".facts"@ =~= directory + "/"@ + (decl.name
        + ".facts"@));
}

} // verus!
