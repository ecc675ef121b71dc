use vstd::prelude::*;

verus! {

/// Index of the last `'.'` in `s`, or -1 when `s` holds none.
pub open spec fn last_dot(s: Seq<char>) -> int
    decreases s.len(),
{
    if s.len() == 0 {
        -1
    } else if s.last() == '.' {
        s.len() - 1
    } else {
        last_dot(s.drop_last())
    }
}

/// The extension of a file name: what follows its last `'.'`, provided that
/// dot is not the name's first character. A name without a dot, or whose only
/// dot leads it (a hidden file such as `.profile`), has no extension; a name
/// that ends in a dot has the empty extension.
pub open spec fn extension_of(name: Seq<char>) -> Option<Seq<char>> {
    let i = last_dot(name);
    if i <= 0 {
        None
    } else {
        Some(name.subrange(i + 1, name.len() as int))
    }
}

/// Finds the extension of a file name, as [`extension_of`] defines it.
pub fn file_extension(name: &str) -> (r: Option<String>)
    ensures
        r matches Some(e) ==> extension_of(name@) == Some(e@),
        r is None ==> extension_of(name@) is None,
{
    let n = name.unicode_len();
    let mut j: usize = n;
    proof {
        assert(name@.subrange(0, n as int) =~= name@);
    }
    // Walk back from the end until a dot turns up.
    while j > 0
        invariant
            n == name@.len(),
            j <= n,
            last_dot(name@) == last_dot(name@.subrange(0, j as int)),
        decreases j,
    {
        let ghost prefix = name@.subrange(0, j as int);
        if name.get_char(j - 1) == '.' {
            proof {
                assert(prefix.last() == '.');
            }
            if j - 1 == 0 {
                return None;
            }
            let ext = name.substring_char(j, n);
            return Some(ext.to_owned());
        }
        proof {
            assert(prefix.drop_last() =~= name@.subrange(0, j - 1));
        }
        j = j - 1;
    }
    proof {
        assert(name@.subrange(0, 0) =~= Seq::<char>::empty());
    }
    None
}

/// Why a list of extensions was not accepted as a filter.
#[derive(Clone, Copy, Debug, PartialEq, Eq, Structural)]
pub enum FilterError {
    /// No extension in the list is a non-empty string.
    NoExtension,
}

/// The set of extensions a file must have to be counted. Matching is exact and
/// case-sensitive; the extensions carry no leading dot.
#[derive(Debug)]
pub struct ExtensionFilter {
    extensions: Vec<String>,
}

impl View for ExtensionFilter {
    type V = Seq<Seq<char>>;

    closed spec fn view(&self) -> Seq<Seq<char>> {
        self.extensions@.map_values(|e: String| e@)
    }
}

/// A list of extensions makes a filter when at least one of them is non-empty.
pub open spec fn has_nonempty(exts: Seq<Seq<char>>) -> bool {
    exists|i: int| 0 <= i < exts.len() && #[trigger] exts[i].len() > 0
}

impl ExtensionFilter {
    pub open spec fn wf(&self) -> bool {
        has_nonempty(self@)
    }

    /// Builds a filter from the given extensions, kept as they are.
    pub fn new(extensions: Vec<String>) -> (r: Result<ExtensionFilter, FilterError>)
        ensures
            match r {
                Ok(f) => f.wf() && f@ == extensions@.map_values(|e: String| e@),
                Err(e) => e == FilterError::NoExtension && !has_nonempty(
                    extensions@.map_values(|e: String| e@),
                ),
            },
    {
        let ghost exts = extensions@.map_values(|e: String| e@);
        let mut i: usize = 0;
        while i < extensions.len()
            invariant
                i <= extensions@.len(),
                exts == extensions@.map_values(|e: String| e@),
                forall|k: int| 0 <= k < i ==> #[trigger] exts[k].len() == 0,
            decreases extensions.len() - i,
        {
            if extensions[i].unicode_len() > 0 {
                assert(exts[i as int].len() > 0);
                return Ok(ExtensionFilter { extensions });
            }
            i = i + 1;
        }
        Err(FilterError::NoExtension)
    }

    /// Whether `ext` is one of the filter's extensions.
    pub fn contains(&self, ext: &String) -> (r: bool)
        ensures
            r == self@.contains(ext@),
    {
        let mut i: usize = 0;
        while i < self.extensions.len()
            invariant
                i <= self.extensions@.len(),
                forall|k: int| 0 <= k < i ==> #[trigger] self@[k] != ext@,
            decreases self.extensions.len() - i,
        {
            if self.extensions[i] == *ext {
                assert(self@[i as int] == ext@);
                return true;
            }
            i = i + 1;
        }
        false
    }

    /// Whether a file of this name has one of the filter's extensions.
    pub fn accepts_name(&self, name: &str) -> (r: bool)
        ensures
            r == (extension_of(name@) matches Some(e) && self@.contains(e)),
    {
        match file_extension(name) {
            Some(e) => self.contains(&e),
            None => false,
        }
    }
}

} // verus!
