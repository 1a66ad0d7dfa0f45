//! A loaded model: its weights, how its inputs are normalized, and who does the arithmetic.
use crate::act::plan::Planner;
use crate::act::plan::Step;
use crate::act::plan::ACTION_DIM;
use crate::act::plan::FF_DIM;
use crate::act::plan::MODEL_DIM;
use crate::act::safetensors::SafeTensors;
use crate::act::Error;
use crate::act::KernelProvider;
use crate::act::LoadOptions;
use vstd::prelude::*;

verus! {

/// A model over a file in memory. `N` is what its inputs and outputs are normalized by.
pub struct ActModel<'a, N> {
    pub weights: SafeTensors<'a>,
    /// Where the file is in memory.
    pub address: usize,
    pub normalization: N,
    pub provider: KernelProvider,
    pub threads: usize,
}

/// The steps of one forward pass, and what stops it behind them, if anything does.
pub struct Plan {
    pub steps: Vec<Step>,
    pub error: Option<Error>,
}

/// Nothing laid out yet, in a workspace of `len` floats.
pub open spec fn blank(
    file: Seq<u8>,
    address: int,
    provider: KernelProvider,
    len: int,
) -> crate::act::plan::PlanView {
    crate::act::plan::PlanView {
        file,
        address,
        provider,
        len,
        top: 0,
        steps: seq![],
        error: None,
    }
}

/// What is wrong with the first of four weights that tell this network from others.
pub open spec fn signature_error(file: Seq<u8>, address: int) -> Option<Error> {
    let d = MODEL_DIM as int;
    let p = blank(file, address, KernelProvider::PortableNeon, 0);
    let p = p.weight(
        crate::act::plan::text("model.backbone.conv1.weight"),
        seq![64, 3, 7, 7],
    ).0;
    let p = p.weight(
        crate::act::plan::text("model.encoder.layers.3.linear1.weight"),
        seq![FF_DIM as int, d],
    ).0;
    let p = p.weight(
        crate::act::plan::text("model.decoder.layers.0.multihead_attn.in_proj_weight"),
        seq![3 * d, d],
    ).0;
    let p = p.weight(
        crate::act::plan::text("model.action_head.weight"),
        seq![ACTION_DIM as int, d],
    ).0;
    p.error
}

/// What is wrong with a model file and its normalization: the file's frame, the normalization, or
/// the file's weights, in this order.
pub open spec fn load_error<N>(
    file: Seq<u8>,
    address: int,
    normalization: Result<N, Error>,
) -> Option<Error> {
    if crate::act::safetensors::header_of(file) is None {
        Some(Error::InvalidSafetensors)
    } else {
        match normalization {
            Err(error) => Some(error),
            Ok(_) => signature_error(file, address),
        }
    }
}

fn planner<'m, 'a>(
    weights: &'m SafeTensors<'a>,
    address: usize,
    provider: KernelProvider,
    len: usize,
) -> (r: Planner<'m, 'a>)
    requires
        weights.wf(),
    ensures
        r@ == blank(weights.file@, address as int, provider, len as int),
        r.wf(),
        r.len == len,
        r.top == 0,
        r.error is None,
        r.weights.file@ == weights.file@,
        r.address == address,
{
    let r: Planner<'m, 'a> = Planner {
        weights,
        address,
        provider,
        len,
        top: 0,
        steps: Vec::new(),
        error: None,
    };
    assert(r@.steps =~= seq![]);
    r
}

fn validate_signature(weights: &SafeTensors, address: usize) -> (r: Option<Error>)
    requires
        weights.wf(),
    ensures
        r == signature_error(weights.file@, address as int),
{
    let mut p: Planner = planner(weights, address, KernelProvider::PortableNeon, 0);
    p.weight4("model.backbone.conv1.weight".as_bytes(), 64, 3, 7);
    p.weight2("model.encoder.layers.3.linear1.weight".as_bytes(), FF_DIM, MODEL_DIM);
    p.weight2(
        "model.decoder.layers.0.multihead_attn.in_proj_weight".as_bytes(),
        3 * MODEL_DIM,
        MODEL_DIM,
    );
    p.weight2("model.action_head.weight".as_bytes(), ACTION_DIM, MODEL_DIM);
    p.error
}

impl<'a, N> ActModel<'a, N> {
    /// The weights are read from a sound file of this network.
    pub open spec fn wf(&self) -> bool {
        &&& self.weights.wf()
        &&& signature_error(self.weights.file@, self.address as int) is None
        &&& self.threads >= 1
    }

    /// Loads a model from a file in memory at `address`. `normalization` was read from a file of
    /// its own.
    pub fn load(model: &'a [u8], address: usize, normalization: Result<N, Error>) -> (r: Result<
        ActModel<'a, N>,
        Error,
    >)
        ensures
            match r {
                Ok(loaded) => {
                    &&& load_error(model@, address as int, normalization) is None
                    &&& loaded.wf()
                    &&& loaded.weights.file@ == model@
                    &&& loaded.address == address
                    &&& Ok::<N, Error>(loaded.normalization) == normalization
                    &&& loaded.provider == KernelProvider::PortableNeon
                    &&& loaded.threads == 1
                },
                Err(error) => load_error(model@, address as int, normalization) == Some(error),
            },
    {
        let weights: SafeTensors<'a> = match SafeTensors::parse(model) {
            Err(error) => {
                return Err(error);
            },
            Ok(weights) => weights,
        };
        let normalization: N = match normalization {
            Err(error) => {
                return Err(error);
            },
            Ok(normalization) => normalization,
        };
        match validate_signature(&weights, address) {
            Some(error) => Err(error),
            None => Ok(
                ActModel {
                    weights,
                    address,
                    normalization,
                    provider: KernelProvider::PortableNeon,
                    threads: 1,
                },
            ),
        }
    }

    /// The memory that a provider keeps between passes. The portable one keeps none.
    pub fn required_persistent_bytes(_model: &[u8], _stats: &[u8], options: LoadOptions) -> (r:
        Result<usize, Error>)
        ensures
            r == (if options.provider == KernelProvider::PortableNeon {
                Ok::<usize, Error>(0)
            } else {
                Err::<usize, Error>(Error::AclProviderUnavailable)
            }),
    {
        if options.provider == KernelProvider::PortableNeon {
            Ok(0)
        } else {
            Err(Error::AclProviderUnavailable)
        }
    }

    /// Loads a model for a provider and a number of threads, at least one.
    pub fn load_with_options(
        model: &'a [u8],
        address: usize,
        normalization: Result<N, Error>,
        options: LoadOptions,
    ) -> (r: Result<ActModel<'a, N>, Error>)
        ensures
            match r {
                Ok(loaded) => {
                    &&& options.provider == KernelProvider::PortableNeon
                    &&& load_error(model@, address as int, normalization) is None
                    &&& loaded.wf()
                    &&& loaded.weights.file@ == model@
                    &&& loaded.address == address
                    &&& Ok::<N, Error>(loaded.normalization) == normalization
                    &&& loaded.provider == options.provider
                    &&& loaded.threads == (if options.threads == 0 {
                        1
                    } else {
                        options.threads
                    })
                },
                Err(error) => if options.provider == KernelProvider::AclNeon {
                    error == Error::AclProviderUnavailable
                } else {
                    load_error(model@, address as int, normalization) == Some(error)
                },
            },
    {
        if options.provider == KernelProvider::AclNeon {
            return Err(Error::AclProviderUnavailable);
        }
        match Self::load(model, address, normalization) {
            Err(error) => Err(error),
            Ok(loaded) => {
                let mut loaded: ActModel<'a, N> = loaded;
                loaded.provider = options.provider;
                loaded.threads =
                if options.threads == 0 {
                    1
                } else {
                    options.threads
                };
                Ok(loaded)
            },
        }
    }

    /// The provider that was chosen when the model was loaded.
    pub fn kernel_provider(&self) -> (r: KernelProvider)
        ensures
            r == self.provider,
    {
        self.provider
    }

    /// The number of threads that was chosen when the model was loaded.
    pub fn kernel_threads(&self) -> (r: usize)
        ensures
            r == self.threads,
    {
        self.threads
    }

    pub fn normalization(&self) -> (r: &N)
        ensures
            *r == self.normalization,
    {
        &self.normalization
    }

    /// Lays out a forward pass over both cameras in a workspace of `workspace_len` floats, up to
    /// where a weight is amiss. Every step stays inside the workspace and the file, and writes
    /// nothing that it reads elsewhere. A workspace of the required size is never too small.
    pub fn predict_with_progress(&self, workspace_len: usize) -> (r: Plan)
        requires
            self.wf(),
        ensures
            ({
                let plan = blank(
                    self.weights.file@,
                    self.address as int,
                    self.provider,
                    workspace_len as int,
                ).predict();
                r.steps@ == plan.steps && r.error == plan.error
            }),
            forall|i: int|
                0 <= i < r.steps@.len() ==> crate::act::plan::step_fits(
                    #[trigger] r.steps@[i],
                    workspace_len as int,
                    self.weights.file@.len() as int,
                    self.address as int,
                ),
            (r.error == Some(Error::WorkspaceTooSmall)) == (workspace_len
                < crate::act::plan::WORKSPACE_FLOATS),
    {
        let mut p: Planner = planner(&self.weights, self.address, self.provider, workspace_len);
        p.predict();
        Plan { steps: p.steps, error: p.error }
    }

    /// Lays out a forward pass as a whole; none of it where a weight is amiss.
    pub fn predict(&self, workspace_len: usize) -> (r: Result<Vec<Step>, Error>)
        requires
            self.wf(),
        ensures
            ({
                let plan = blank(
                    self.weights.file@,
                    self.address as int,
                    self.provider,
                    workspace_len as int,
                ).predict();
                match r {
                    Ok(steps) => plan.error is None && steps@ == plan.steps,
                    Err(error) => plan.error == Some(error),
                }
            }),
            r is Ok ==> forall|i: int|
                0 <= i < r->Ok_0@.len() ==> crate::act::plan::step_fits(
                    #[trigger] r->Ok_0@[i],
                    workspace_len as int,
                    self.weights.file@.len() as int,
                    self.address as int,
                ),
            (r == Err::<Vec<Step>, Error>(Error::WorkspaceTooSmall)) == (workspace_len
                < crate::act::plan::WORKSPACE_FLOATS),
    {
        let plan: Plan = self.predict_with_progress(workspace_len);
        match plan.error {
            Some(error) => Err(error),
            None => Ok(plan.steps),
        }
    }
}

} // verus!
