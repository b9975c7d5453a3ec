//! Where decoded configs are saved: `{output_dir}/{id}.txt`, or, for
//! content over `max_per_file` configurations, the parts
//! `{output_dir}/{id}-{n}.txt` (the last holding what remains) in place of
//! the single file.

use vstd::prelude::*;
use crate::splitter::{
    concat, configs_in, count_configs, effective_limit, lemma_sum_configs_uniform, part_file_name,
    part_name, split_by_config_count, split_by_configs, sum_configs, DEFAULT_MAX_PER_FILE,
};
use crate::text::{chars_of, push_char, push_chars, string_of, views};

verus! {

/// Saves into one output directory.
#[derive(Debug)]
pub struct FileSaver {
    output_dir: String,
    max_per_file: usize,
}

/// `dir` joined with `name` as `Path::join` does on Unix: an absolute
/// `name` replaces `dir`; otherwise a `'/'` goes between them unless `dir`
/// is empty or already ends with one.
pub open spec fn join_path(dir: Seq<char>, name: Seq<char>) -> Seq<char> {
    if name.len() > 0 && name[0] == '/' {
        name
    } else if dir.len() == 0 {
        name
    } else if dir.last() == '/' {
        dir + name
    } else {
        dir + seq!['/'] + name
    }
}

/// The file name `{id}.txt`.
pub open spec fn single_name(id: Seq<char>) -> Seq<char> {
    id + seq!['.', 't', 'x', 't']
}

/// What a save does: the files to write, in order, with their contents;
/// the number of the last part kept (0 when the content goes into the
/// single file), so that leftover parts `{id}-{n}.txt` numbered after it
/// (from an earlier, larger split) are removed; and whether the single file
/// `{id}.txt` is removed because the content went into parts.
#[derive(Debug)]
pub struct SavePlan {
    pub files: Vec<(String, String)>,
    pub last_part: usize,
    pub remove_single: bool,
}

/// The contents of the planned files.
pub open spec fn contents(files: Seq<(String, String)>) -> Seq<Seq<char>> {
    files.map_values(|f: (String, String)| f.1@)
}

impl FileSaver {
    /// At least one configuration fits in a file.
    #[verifier::type_invariant]
    spec fn limit_positive(self) -> bool {
        self.max_per_file >= 1
    }

    /// The output directory.
    pub closed spec fn dir(&self) -> Seq<char> {
        self.output_dir@
    }

    /// The largest number of configurations in one file.
    pub closed spec fn limit(&self) -> nat {
        self.max_per_file as nat
    }

    /// The output directory.
    pub fn output_dir(&self) -> (d: &str)
        ensures
            d@ == self.dir(),
    {
        self.output_dir.as_str()
    }

    /// A saver for `output_dir` with the default limit per file.
    pub fn new(output_dir: &str) -> (s: Self)
        ensures
            s.dir() == output_dir@,
            s.limit() == DEFAULT_MAX_PER_FILE,
    {
        FileSaver { output_dir: string_of(&chars_of(output_dir)), max_per_file: DEFAULT_MAX_PER_FILE }
    }

    /// A saver with its own limit of configurations per file (at least 1).
    pub fn with_max_per_file(output_dir: &str, max_per_file: usize) -> (s: Self)
        ensures
            s.dir() == output_dir@,
            s.limit() == if max_per_file == 0 {
                1
            } else {
                max_per_file as nat
            },
    {
        FileSaver {
            output_dir: string_of(&chars_of(output_dir)),
            max_per_file: if max_per_file == 0 { 1 } else { max_per_file },
        }
    }

    /// `self`'s directory joined with `name`.
    fn join(&self, name: &String) -> (path: String)
        ensures
            path@ == join_path(self.dir(), name@),
    {
        let n = chars_of(name.as_str());
        let d = chars_of(self.output_dir.as_str());
        if n.len() > 0 && n[0] == '/' {
            return string_of(&n);
        }
        if d.len() == 0 {
            return string_of(&n);
        }
        let mut path = string_of(&d);
        if d[d.len() - 1] != '/' {
            push_char(&mut path, '/');
        }
        push_chars(&mut path, &n);
        path
    }

    /// The path of the single file for `id` (nothing is written).
    pub fn path_for(&self, id: &str) -> (path: String)
        ensures
            path@ == join_path(self.dir(), single_name(id@)),
    {
        let mut name = string_of(&chars_of(id));
        push_char(&mut name, '.');
        push_char(&mut name, 't');
        push_char(&mut name, 'x');
        push_char(&mut name, 't');
        assert(name@ =~= single_name(id@));
        self.join(&name)
    }

    /// The path of part `index` (from 1) of `id` (nothing is written).
    pub fn part_path_for(&self, id: &str, index: usize) -> (path: String)
        ensures
            path@ == join_path(self.dir(), part_name(id@, index as nat)),
    {
        let name = part_file_name(id, index);
        self.join(&name)
    }

    /// What saving `content` for `id` does. Content with at most the limit
    /// of configurations goes whole into `{id}.txt` and any parts left from
    /// earlier are removed. Larger content is cut by
    /// configuration count into parts `{id}-1.txt`, `{id}-2.txt`, … ; parts
    /// after the last one are removed, and so is `{id}.txt`.
    pub fn plan_save(&self, id: &str, content: &str) -> (plan: SavePlan)
        ensures
            configs_in(content@) <= self.limit() ==> {
                &&& plan.files@.len() == 1
                &&& plan.files@[0].0@ == join_path(self.dir(), single_name(id@))
                &&& plan.files@[0].1@ == content@
                &&& plan.last_part == 0
                &&& !plan.remove_single
            },
            configs_in(content@) > self.limit() ==> {
                let parts = split_by_configs(content@, self.limit());
                &&& plan.files@.len() == parts.len()
                &&& forall|k: int|
                    0 <= k < parts.len() ==> (#[trigger] plan.files@[k]).0@ == join_path(
                        self.dir(),
                        part_name(id@, (k + 1) as nat),
                    ) && plan.files@[k].1@ == parts[k]
                &&& plan.last_part == parts.len()
                &&& plan.remove_single
                &&& (plan.files@.len() - 1) * self.limit() + configs_in(plan.files@.last().1@)
                    == configs_in(content@)
                &&& 1 <= configs_in(plan.files@.last().1@) <= self.limit()
                &&& plan.files@.len() == (configs_in(content@) + self.limit() - 1) / (self.limit() as int)
            },
            concat(contents(plan.files@)) == content@,
            forall|k: int|
                0 <= k < plan.files@.len() ==> configs_in(#[trigger] plan.files@[k].1@)
                    <= self.limit(),
            forall|k: int|
                0 <= k < plan.files@.len() - 1 ==> configs_in(#[trigger] plan.files@[k].1@)
                    == self.limit(),
    {
        proof {
            use_type_invariant(self);
        }
        if count_configs(content) <= self.max_per_file {
            let mut files: Vec<(String, String)> = Vec::new();
            files.push((self.path_for(id), string_of(&chars_of(content))));
            proof {
                crate::splitter::lemma_concat_cons(content@, seq![]);
                assert(contents(files@) =~= seq![content@]);
                assert(seq![content@] + Seq::<Seq<char>>::empty() == seq![content@]);
                assert(content@ + Seq::<char>::empty() == content@);
            }
            return SavePlan { files, last_part: 0, remove_single: false };
        }
        let chunks = split_by_config_count(content, self.max_per_file);
        let ghost chunk_views = views(chunks@);
        let ghost target = split_by_configs(content@, self.limit());
        assert(self.max_per_file >= 1 ==> effective_limit(self.max_per_file as nat) == self.limit());
        let mut files: Vec<(String, String)> = Vec::new();
        let mut rest = chunks;
        let mut k: usize = 0;
        let total = rest.len();
        assert(views(rest@) == target.skip(0));
        while rest.len() > 0
            invariant
                total == target.len(),
                k + rest@.len() == total,
                views(rest@) == target.skip(k as int),
                files@.len() == k,
                forall|j: int|
                    0 <= j < k ==> (#[trigger] files@[j]).0@ == join_path(
                        self.dir(),
                        part_name(id@, (j + 1) as nat),
                    ) && files@[j].1@ == target[j],
            decreases rest.len(),
        {
            let ghost prior = rest@;
            let chunk = rest.remove(0);
            proof {
                assert(rest@ == prior.drop_first());
                assert(views(prior)[0] == chunk@);
                assert forall|j: int| 0 <= j < views(rest@).len() implies views(rest@)[j]
                    == target.skip(k + 1)[j] by {
                    assert(views(rest@)[j] == rest@[j]@);
                    assert(views(prior)[j + 1] == prior[j + 1]@);
                    assert(views(prior)[j + 1] == target.skip(k as int)[j + 1]);
                }
                assert(views(rest@) =~= target.skip(k + 1));
            }
            let path = self.part_path_for(id, k + 1);
            files.push((path, chunk));
            k = k + 1;
        }
        assert(contents(files@) =~= target);
        assert forall|j: int| 0 <= j < files@.len() implies configs_in(#[trigger] files@[j].1@)
            <= self.limit() by {
            assert(views(chunks@)[j] == chunks@[j]@);
        }
        assert forall|j: int| 0 <= j < files@.len() - 1 implies configs_in(
            #[trigger] files@[j].1@,
        ) == self.limit() by {
            assert(views(chunks@)[j] == chunks@[j]@);
        }
        proof {
            let m = self.limit();
            let n = configs_in(content@);
            let k = files@.len();
            assert(chunk_views == target);
            assert(sum_configs(target) == n);
            assert(target.len() >= 1);
            lemma_sum_configs_uniform(target, m);
            assert(target.last() == files@.last().1@);
            assert(target.len() >= 2) by {
                if target.len() == 1 {
                    assert(target.drop_first().len() == 0);
                    assert(sum_configs(target.drop_first()) == 0);
                    assert(sum_configs(target) == configs_in(target[0]));
                }
            }
            assert(configs_in(target[target.len() - 1]) >= 1);
            let r = configs_in(files@.last().1@);
            assert(k == (n + m - 1) / (m as int)) by (nonlinear_arith)
                requires
                    (k - 1) * m + r == n,
                    1 <= r <= m,
                    k >= 1,
            ;
        }
        SavePlan { files, last_part: total, remove_single: true }
    }
}

} // verus!
