//! The decisions of one cached invocation: which key it has, and whether its
//! fresh result is stored.
use vstd::prelude::*;

use crate::cache::{
    entry_of, CachedOutput, CommandIdentity, Fingerprint, IdentityModel, ResultCache,
};

verus! {

/// How an invocation is cached.
pub struct CommandOptions {
    /// The environment variables whose values are part of the key.
    pub cache_env: Vec<String>,
    /// Whether a run that exits with a non-zero status is stored too.
    pub cache_failures: bool,
}

impl Default for CommandOptions {
    fn default() -> (r: CommandOptions)
        ensures
            r.cache_env@.len() == 0,
            !r.cache_failures,
    {
        CommandOptions { cache_env: Vec::new(), cache_failures: false }
    }
}

pub open spec fn option_model(v: Option<String>) -> Option<Seq<char>> {
    match v {
        Some(s) => Some(s@),
        None => None,
    }
}

/// The key of running `program` with `args`, where `values[i]` is the value
/// of the `i`-th relevant variable `names[i]`.
pub open spec fn identity_of(
    program: Seq<char>,
    args: Seq<Seq<char>>,
    names: Seq<Seq<char>>,
    values: Seq<Option<Seq<char>>>,
) -> IdentityModel {
    IdentityModel {
        program,
        args,
        env: Seq::new(names.len(), |i: int| (names[i], values[i])),
    }
}

impl CommandOptions {
    /// The key of running `program` with `args`, where `env_values` holds, in
    /// the order of `cache_env`, the value of each variable (`None` when unset).
    pub fn identity(&self, program: String, args: Vec<String>, env_values: Vec<Option<String>>) -> (r:
        CommandIdentity)
        requires
            env_values.len() == self.cache_env.len(),
        ensures
            r@ == identity_of(
                program@,
                args.deep_view(),
                self.cache_env.deep_view(),
                env_values@.map_values(|v: Option<String>| option_model(v)),
            ),
    {
        let ghost names = self.cache_env.deep_view();
        let ghost values = env_values@.map_values(|v: Option<String>| option_model(v));
        let mut env: Vec<(String, Option<String>)> = Vec::new();
        let mut i: usize = 0;
        while i < self.cache_env.len()
            invariant
                env_values.len() == self.cache_env.len(),
                names == self.cache_env.deep_view(),
                values == env_values@.map_values(|v: Option<String>| option_model(v)),
                i <= self.cache_env.len(),
                env@.len() == i,
                forall|j: int|
                    0 <= j < i ==> crate::cache::binding_model(#[trigger] env@[j]) == (
                        names[j],
                        values[j],
                    ),
            decreases self.cache_env.len() - i,
        {
            let value = match &env_values[i] {
                Some(v) => Some(v.clone()),
                None => None,
            };
            env.push((self.cache_env[i].clone(), value));
            i = i + 1;
        }
        let r = CommandIdentity { program, args, env };
        assert(r@.env =~= Seq::new(names.len(), |j: int| (names[j], values[j])));
        r
    }

    /// Whether a run that ended with `status` may be stored.
    pub fn may_store(&self, status: i32) -> (r: bool)
        ensures
            r == (status == 0 || self.cache_failures),
    {
        status == 0 || self.cache_failures
    }
}

impl ResultCache {
    /// Ends a run that was executed afresh: stores its output with the
    /// fingerprint of each dependency path when the options allow a run that
    /// ended so, and says whether it did. Otherwise the cache is left as it was.
    pub fn record_run(
        &mut self,
        options: &CommandOptions,
        id: CommandIdentity,
        output: &CachedOutput,
        paths: Vec<String>,
        fingerprints: Vec<Fingerprint>,
    ) -> (stored: bool)
        requires
            old(self).wf(),
            paths.len() == fingerprints.len(),
        ensures
            final(self).wf(),
            stored == (output.status == 0 || options.cache_failures),
            stored ==> final(self)@ == old(self)@.insert(
                id@,
                entry_of(output@, paths.deep_view(), fingerprints@),
            ),
            !stored ==> final(self)@ == old(self)@,
    {
        if options.may_store(output.status) {
            self.store(id, output.duplicate(), paths, fingerprints);
            true
        } else {
            false
        }
    }
}

} // verus!
