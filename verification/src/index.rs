//! A snapshot of a package index: the releases of each package, their
//! files, and the metadata that each release declares.

use crate::requirement::Requirement;
use crate::text::{listed, lists, same_text};
use crate::version::Version;
use vstd::prelude::*;

verus! {

/// A file of a release.
#[derive(Debug, Clone)]
pub struct File {
    pub filename: String,
    /// The compatibility tags of a wheel, such as `cp311-cp311-macosx_11_0_arm64`;
    /// `None` for a source distribution.
    pub tags: Option<Vec<String>>,
    /// When the file was uploaded, in seconds since the epoch, where known.
    pub upload_time: Option<i64>,
}

/// What a release declares of itself.
#[derive(Debug, Clone)]
pub struct Metadata {
    /// The requirements of the release, those of its extras among them.
    pub requires_dist: Vec<Requirement>,
    /// The extras that the release offers, in normal form.
    pub provides_extras: Vec<String>,
}

/// One version of a package.
#[derive(Debug, Clone)]
pub struct Release {
    pub version: Version,
    /// Whether the release was withdrawn.
    pub yanked: bool,
    pub files: Vec<File>,
    /// The metadata of the release; `None` where it could not be had.
    pub metadata: Option<Metadata>,
}

/// A package with its releases.
#[derive(Debug, Clone)]
pub struct Package {
    /// The package's name, in normal form.
    pub name: String,
    pub releases: Vec<Release>,
}

/// The snapshot. Of several packages of one name, only the first is seen.
#[derive(Debug, Clone)]
pub struct Index {
    pub packages: Vec<Package>,
}

/// The position of the first package named `name` from position `from` on.
pub open spec fn package_from(packages: Vec<Package>, name: Seq<char>, from: int) -> Option<usize>
    decreases packages.len() - from,
{
    if from < 0 || from >= packages.len() {
        None
    } else if packages@[from].name@ == name {
        Some(from as usize)
    } else {
        package_from(packages, name, from + 1)
    }
}

/// The position of the package named `name` in the index.
pub open spec fn package_named(index: Index, name: Seq<char>) -> Option<usize> {
    package_from(index.packages, name, 0)
}

/// What a found position is: within the index, of that name, and the first such.
pub proof fn lemma_package_from(packages: Vec<Package>, name: Seq<char>, from: int)
    requires
        0 <= from,
    ensures
        match package_from(packages, name, from) {
            Some(i) => from <= i < packages.len() && packages@[i as int].name@ == name && forall|
                k: int,
            |
                from <= k < i ==> (#[trigger] packages@[k]).name@ != name,
            None => forall|k: int|
                from <= k < packages.len() ==> (#[trigger] packages@[k]).name@ != name,
        },
    decreases packages.len() - from,
{
    if from < packages.len() && packages@[from].name@ != name {
        lemma_package_from(packages, name, from + 1);
    }
}

impl Index {
    /// The position of the package named `name`, if the index holds one.
    pub fn find(&self, name: &str) -> (found: Option<usize>)
        ensures
            found == package_named(*self, name@),
            found matches Some(i) ==> i < self.packages@.len() && self.packages@[i as int].name@
                == name@,
    {
        let mut i: usize = 0;
        while i < self.packages.len()
            invariant
                i <= self.packages.len(),
                package_named(*self, name@) == package_from(self.packages, name@, i as int),
            decreases self.packages.len() - i,
        {
            if same_text(self.packages[i].name.as_str(), name) {
                return Some(i);
            }
            i = i + 1;
        }
        None
    }
}

/// Whether the file was uploaded by the cutoff; without cutoff every file
/// was, with one a file of unknown upload time was not.
pub open spec fn in_time(file: File, cutoff: Option<i64>) -> bool {
    match cutoff {
        None => true,
        Some(limit) => match file.upload_time {
            Some(at) => at <= limit,
            None => false,
        },
    }
}

/// The rank of a wheel: the position of the first of the target's tags, from
/// `from` on, that the wheel carries, or their number where it carries none.
/// The target's tags come most preferred first.
pub open spec fn wheel_rank(wheel: Seq<String>, tags: Seq<String>, from: int) -> int
    decreases tags.len() - from,
{
    if from < 0 || from >= tags.len() {
        tags.len() as int
    } else if lists(wheel, tags[from]@) {
        from
    } else {
        wheel_rank(wheel, tags, from + 1)
    }
}

/// The rank of a file: that of a wheel, and for a source distribution the
/// rank after every wheel that fits.
pub open spec fn file_rank(file: File, tags: Seq<String>) -> int {
    match file.tags {
        Some(wheel) => wheel_rank(wheel@, tags, 0),
        None => tags.len() as int,
    }
}

/// Whether the file can be installed on the target: a wheel if one of its
/// tags is among the target's, a source distribution always.
pub open spec fn fits(file: File, tags: Seq<String>) -> bool {
    match file.tags {
        Some(wheel) => exists|j: int| 0 <= j < tags.len() && lists(wheel@, (#[trigger] tags[j])@),
        None => true,
    }
}

/// Whether the file can be used: uploaded in time and fit for the target.
pub open spec fn usable(file: File, tags: Seq<String>, cutoff: Option<i64>) -> bool {
    in_time(file, cutoff) && fits(file, tags)
}

/// Whether the release has a file that can be used.
pub open spec fn has_usable_file(release: Release, tags: Seq<String>, cutoff: Option<i64>) -> bool {
    exists|i: int|
        0 <= i < release.files@.len() && usable(#[trigger] release.files@[i], tags, cutoff)
}

/// A wheel fits exactly if its rank is that of one of the target's tags.
pub proof fn lemma_wheel_rank(wheel: Seq<String>, tags: Seq<String>, from: int)
    requires
        0 <= from,
    ensures
        from <= wheel_rank(wheel, tags, from) || wheel_rank(wheel, tags, from) == tags.len(),
        wheel_rank(wheel, tags, from) <= tags.len(),
        wheel_rank(wheel, tags, from) < tags.len() ==> lists(
            wheel,
            tags[wheel_rank(wheel, tags, from)]@,
        ),
        forall|j: int|
            from <= j < wheel_rank(wheel, tags, from) && j < tags.len() ==> !lists(
                wheel,
                (#[trigger] tags[j])@,
            ),
    decreases tags.len() - from,
{
    if from < tags.len() && !lists(wheel, tags[from]@) {
        lemma_wheel_rank(wheel, tags, from + 1);
    }
}

/// The best of the first `n` files: the usable file of least rank, the
/// earlier of two of one rank; `None` where none of them is usable.
pub open spec fn best_file(files: Vec<File>, tags: Seq<String>, cutoff: Option<i64>, n: int) -> Option<
    usize,
>
    decreases n,
{
    if n <= 0 || n > files.len() {
        None
    } else {
        let earlier = best_file(files, tags, cutoff, n - 1);
        if !usable(files@[n - 1], tags, cutoff) {
            earlier
        } else {
            match earlier {
                Some(b) => if 0 <= b < files.len() && file_rank(files@[n - 1], tags) < file_rank(
                    files@[b as int],
                    tags,
                ) {
                    Some((n - 1) as usize)
                } else {
                    earlier
                },
                None => Some((n - 1) as usize),
            }
        }
    }
}

/// The best file is usable and of least rank among the usable files, and
/// there is one exactly if some file is usable.
pub proof fn lemma_best_file(files: Vec<File>, tags: Seq<String>, cutoff: Option<i64>, n: int)
    requires
        0 <= n <= files.len(),
    ensures
        match best_file(files, tags, cutoff, n) {
            Some(b) => b < n && usable(files@[b as int], tags, cutoff) && forall|k: int|
                0 <= k < n && usable(#[trigger] files@[k], tags, cutoff) ==> file_rank(
                    files@[b as int],
                    tags,
                ) <= file_rank(files@[k], tags),
            None => forall|k: int| 0 <= k < n ==> !usable(#[trigger] files@[k], tags, cutoff),
        },
    decreases n,
{
    if n > 0 {
        lemma_best_file(files, tags, cutoff, n - 1);
    }
}

impl File {
    /// Whether the file was uploaded by the cutoff.
    pub fn uploaded_by(&self, cutoff: Option<i64>) -> (b: bool)
        ensures
            b == in_time(*self, cutoff),
    {
        match cutoff {
            None => true,
            Some(limit) => match self.upload_time {
                Some(at) => at <= limit,
                None => false,
            },
        }
    }

    /// The rank of the file for a target with the given tags, most preferred
    /// first: the less the better, `tags.len()` for a source distribution
    /// and for a wheel that does not fit.
    pub fn rank(&self, tags: &Vec<String>) -> (r: usize)
        ensures
            r == file_rank(*self, tags@),
            r <= tags@.len(),
            self.tags is Some ==> (r < tags@.len()) == fits(*self, tags@),
    {
        match &self.tags {
            None => tags.len(),
            Some(wheel) => {
                let mut j: usize = 0;
                proof {
                    lemma_wheel_rank(wheel@, tags@, 0);
                }
                while j < tags.len()
                    invariant
                        j <= tags.len(),
                        self.tags == Some(*wheel),
                        wheel_rank(wheel@, tags@, 0) == wheel_rank(wheel@, tags@, j as int),
                    decreases tags.len() - j,
                {
                    if listed(wheel, tags[j].as_str()) {
                        proof {
                            assert(wheel_rank(wheel@, tags@, j as int) == j);
                            lemma_wheel_rank(wheel@, tags@, 0);
                        }
                        return j;
                    }
                    j = j + 1;
                }
                proof {
                    lemma_wheel_rank(wheel@, tags@, 0);
                }
                tags.len()
            },
        }
    }

    /// Whether the file can be used on a target with the given tags, given
    /// the cutoff for uploads.
    pub fn is_usable(&self, tags: &Vec<String>, cutoff: Option<i64>) -> (b: bool)
        ensures
            b == usable(*self, tags@, cutoff),
    {
        if !self.uploaded_by(cutoff) {
            return false;
        }
        match &self.tags {
            None => true,
            Some(_) => self.rank(tags) < tags.len(),
        }
    }
}

impl Release {
    /// The file to install for the release: the best wheel by the rank of
    /// its tags, else the source distribution; `None` where no file of the
    /// release can be used.
    pub fn select_file(&self, tags: &Vec<String>, cutoff: Option<i64>) -> (best: Option<usize>)
        ensures
            best == best_file(self.files, tags@, cutoff, self.files@.len() as int),
            best is Some == has_usable_file(*self, tags@, cutoff),
            best matches Some(b) ==> b < self.files@.len(),
    {
        let mut best: Option<usize> = None;
        let mut best_rank: usize = 0;
        let mut i: usize = 0;
        while i < self.files.len()
            invariant
                i <= self.files.len(),
                best == best_file(self.files, tags@, cutoff, i as int),
                best matches Some(b) ==> b < i && best_rank == file_rank(self.files@[b as int], tags@),
            decreases self.files.len() - i,
        {
            let file = &self.files[i];
            if file.is_usable(tags, cutoff) {
                let rank = file.rank(tags);
                let better = match best {
                    Some(_) => rank < best_rank,
                    None => true,
                };
                if better {
                    best = Some(i);
                    best_rank = rank;
                }
            }
            i = i + 1;
        }
        proof {
            lemma_best_file(self.files, tags@, cutoff, self.files@.len() as int);
        }
        best
    }
}

} // verus!
