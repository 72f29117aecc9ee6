use vstd::prelude::*;
use crate::graph::GRAPH_LIMIT;
use crate::parse::{parse_count, parse_decimal, parse_decimal_token, parse_u64, token_views};
use crate::parse::{lemma_pow10_monotone, lemma_value_below_pow10, pow10, split_once, DECIMAL_POINT};

verus! {

/// The random-graph models on offer.
#[derive(Clone, Copy, Debug, PartialEq, Eq, Structural)]
pub enum Model {
    BarabasiAlbert,
    Chain,
    ErdosRenyi,
    Tree,
    WattsStrogatz,
}

/// The numeric kind of a parameter slot.
#[derive(Clone, Copy, Debug, PartialEq, Eq, Structural)]
pub enum ParamKind {
    /// An unsigned integer.
    Count,
    /// A decimal number in `[0, 1]`.
    Probability,
}

/// Why a specification could not be turned into a generator.
#[derive(Clone, Copy, Debug, PartialEq, Eq, Structural)]
pub enum GenError {
    /// No model has the given name.
    UnknownModel,
    /// The model takes `expected` parameters and `found` were given.
    ArityMismatch { expected: usize, found: usize },
    /// The token at `position` does not read as a value of kind `kind`.
    ParameterParseError { position: usize, kind: ParamKind },
    /// The values read break a constraint of the model, or describe a graph
    /// larger than a petgraph graph with `u32` indices can hold.
    ParameterRangeError,
}

/// The probability `num / scale`, with `scale` a power of ten.
#[derive(Clone, Copy, Debug, PartialEq, Eq, Structural)]
pub struct Probability {
    pub num: u64,
    pub scale: u64,
}

impl Probability {
    pub open spec fn wf(&self) -> bool {
        0 < self.scale && self.num <= self.scale
    }

    pub open spec fn is_zero(&self) -> bool {
        self.num == 0
    }

    pub open spec fn is_one(&self) -> bool {
        self.num == self.scale
    }
}

/// The probability that a decimal `int + frac / scale` writes, if it lies in `[0, 1]`.
pub open spec fn probability_of(d: (u64, u64, u64)) -> Option<Probability> {
    if d.0 == 0 {
        Some(Probability { num: d.1, scale: d.2 })
    } else if d.0 == 1 && d.1 == 0 {
        Some(Probability { num: d.2, scale: d.2 })
    } else {
        None
    }
}

/// The values bound to a model's parameters.
#[derive(Clone, Copy, Debug, PartialEq, Eq, Structural)]
pub enum Params {
    BarabasiAlbert { n: usize, m: usize },
    Chain { n: usize },
    ErdosRenyi { n: usize, p: Probability },
    Tree { n: usize },
    WattsStrogatz { n: usize, k: usize, p: Probability },
}

pub open spec fn fits_graph(x: int) -> bool {
    0 <= x <= GRAPH_LIMIT
}

/// The constraints of each model, together with the bound on the size of
/// the graphs it draws.
pub open spec fn chain_ok(n: int) -> bool {
    1 <= n && fits_graph(n)
}

pub open spec fn tree_ok(n: int) -> bool {
    1 <= n && fits_graph(n)
}

pub open spec fn erdos_renyi_ok(n: int) -> bool {
    1 <= n && fits_graph(n) && fits_graph(n * (n - 1))
}

pub open spec fn barabasi_albert_ok(n: int, m: int) -> bool {
    1 <= m < n && fits_graph(n) && fits_graph(n * m)
}

pub open spec fn watts_strogatz_ok(n: int, k: int) -> bool {
    k % 2 == 0 && 2 <= k < n && fits_graph(n) && fits_graph(n * (k / 2))
}

impl Params {
    pub open spec fn model(&self) -> Model {
        match *self {
            Params::BarabasiAlbert { .. } => Model::BarabasiAlbert,
            Params::Chain { .. } => Model::Chain,
            Params::ErdosRenyi { .. } => Model::ErdosRenyi,
            Params::Tree { .. } => Model::Tree,
            Params::WattsStrogatz { .. } => Model::WattsStrogatz,
        }
    }

    /// The values satisfy their model's constraints.
    pub open spec fn wf(&self) -> bool {
        match *self {
            Params::BarabasiAlbert { n, m } => barabasi_albert_ok(n as int, m as int),
            Params::Chain { n } => chain_ok(n as int),
            Params::ErdosRenyi { n, p } => erdos_renyi_ok(n as int) && p.wf(),
            Params::Tree { n } => tree_ok(n as int),
            Params::WattsStrogatz { n, k, p } => watts_strogatz_ok(n as int, k as int) && p.wf(),
        }
    }
}

impl Model {
    /// The name under which the model is looked up.
    pub open spec fn spec_name(&self) -> Seq<u8> {
        match *self {
            // "barabasi_albert"
            Model::BarabasiAlbert => seq![98u8, 97, 114, 97, 98, 97, 115, 105, 95, 97, 108, 98, 101, 114, 116],
            // "chain"
            Model::Chain => seq![99u8, 104, 97, 105, 110],
            // "erdos_renyi"
            Model::ErdosRenyi => seq![101u8, 114, 100, 111, 115, 95, 114, 101, 110, 121, 105],
            // "tree"
            Model::Tree => seq![116u8, 114, 101, 101],
            // "watts_strogatz"
            Model::WattsStrogatz => seq![119u8, 97, 116, 116, 115, 95, 115, 116, 114, 111, 103, 97, 116, 122],
        }
    }

    /// A short second name.
    pub open spec fn spec_alias(&self) -> Seq<u8> {
        match *self {
            // "ba"
            Model::BarabasiAlbert => seq![98u8, 97],
            // "chain"
            Model::Chain => seq![99u8, 104, 97, 105, 110],
            // "er"
            Model::ErdosRenyi => seq![101u8, 114],
            // "tree"
            Model::Tree => seq![116u8, 114, 101, 101],
            // "ws"
            Model::WattsStrogatz => seq![119u8, 115],
        }
    }

    /// The kinds of the model's parameters, in order.
    pub open spec fn spec_schema(&self) -> Seq<ParamKind> {
        match *self {
            Model::BarabasiAlbert => seq![ParamKind::Count, ParamKind::Count],
            Model::Chain => seq![ParamKind::Count],
            Model::ErdosRenyi => seq![ParamKind::Count, ParamKind::Probability],
            Model::Tree => seq![ParamKind::Count],
            Model::WattsStrogatz => seq![ParamKind::Count, ParamKind::Count, ParamKind::Probability],
        }
    }

    /// What binding `toks` to the model gives: the arity is checked first,
    /// then each token is read in order, then the model's constraints.
    pub open spec fn spec_bind(&self, toks: Seq<Seq<u8>>) -> Result<Params, GenError> {
        if toks.len() != self.spec_schema().len() {
            Err(GenError::ArityMismatch { expected: self.spec_schema().len() as usize, found: toks.len() as usize })
        } else {
            let count_err = |i: usize| GenError::ParameterParseError { position: i, kind: ParamKind::Count };
            let prob_err = |i: usize| GenError::ParameterParseError { position: i, kind: ParamKind::Probability };
            match *self {
                Model::Chain => match parse_count(toks[0]) {
                    None => Err(count_err(0)),
                    Some(n) => if chain_ok(n as int) {
                        Ok(Params::Chain { n: n as usize })
                    } else {
                        Err(GenError::ParameterRangeError)
                    },
                },
                Model::Tree => match parse_count(toks[0]) {
                    None => Err(count_err(0)),
                    Some(n) => if tree_ok(n as int) {
                        Ok(Params::Tree { n: n as usize })
                    } else {
                        Err(GenError::ParameterRangeError)
                    },
                },
                Model::ErdosRenyi => match (parse_count(toks[0]), parse_decimal(toks[1])) {
                    (None, _) => Err(count_err(0)),
                    (_, None) => Err(prob_err(1)),
                    (Some(n), Some(d)) => match probability_of(d) {
                        Some(p) if erdos_renyi_ok(n as int) => Ok(Params::ErdosRenyi { n: n as usize, p }),
                        _ => Err(GenError::ParameterRangeError),
                    },
                },
                Model::BarabasiAlbert => match (parse_count(toks[0]), parse_count(toks[1])) {
                    (None, _) => Err(count_err(0)),
                    (_, None) => Err(count_err(1)),
                    (Some(n), Some(m)) => if barabasi_albert_ok(n as int, m as int) {
                        Ok(Params::BarabasiAlbert { n: n as usize, m: m as usize })
                    } else {
                        Err(GenError::ParameterRangeError)
                    },
                },
                Model::WattsStrogatz => match (parse_count(toks[0]), parse_count(toks[1]), parse_decimal(toks[2])) {
                    (None, _, _) => Err(count_err(0)),
                    (_, None, _) => Err(count_err(1)),
                    (_, _, None) => Err(prob_err(2)),
                    (Some(n), Some(k), Some(d)) => match probability_of(d) {
                        Some(p) if watts_strogatz_ok(n as int, k as int) => Ok(
                            Params::WattsStrogatz { n: n as usize, k: k as usize, p },
                        ),
                        _ => Err(GenError::ParameterRangeError),
                    },
                },
            }
        }
    }
}

/// The model whose name or alias is `name`, if any.
pub open spec fn spec_model_named(name: Seq<u8>) -> Option<Model> {
    if name == Model::BarabasiAlbert.spec_name() || name == Model::BarabasiAlbert.spec_alias() {
        Some(Model::BarabasiAlbert)
    } else if name == Model::Chain.spec_name() || name == Model::Chain.spec_alias() {
        Some(Model::Chain)
    } else if name == Model::ErdosRenyi.spec_name() || name == Model::ErdosRenyi.spec_alias() {
        Some(Model::ErdosRenyi)
    } else if name == Model::Tree.spec_name() || name == Model::Tree.spec_alias() {
        Some(Model::Tree)
    } else if name == Model::WattsStrogatz.spec_name() || name == Model::WattsStrogatz.spec_alias() {
        Some(Model::WattsStrogatz)
    } else {
        None
    }
}

/// A model descriptor: a name, a parameter schema, and the binding of
/// raw tokens to checked parameters.
pub trait GeneratorFactory {
    spec fn spec_factory_name(&self) -> Seq<u8>;

    spec fn spec_factory_schema(&self) -> Seq<ParamKind>;

    spec fn spec_try_with_params(&self, toks: Seq<Seq<u8>>) -> Result<Params, GenError>;

    /// The name under which the descriptor is looked up.
    fn name(&self) -> (r: Vec<u8>)
        ensures
            r@ == self.spec_factory_name(),
    ;

    /// The kinds of the parameters, in order.
    fn schema(&self) -> (r: Vec<ParamKind>)
        ensures
            r@ == self.spec_factory_schema(),
    ;

    /// Checks and reads the raw parameter tokens.
    fn try_with_params(&self, tokens: &Vec<Vec<u8>>) -> (r: Result<Params, GenError>)
        ensures
            r == self.spec_try_with_params(token_views(tokens@)),
    ;
}

fn bytes_eq(a: &Vec<u8>, b: &Vec<u8>) -> (r: bool)
    ensures
        r == (a@ == b@),
{
    if a.len() != b.len() {
        return false;
    }
    let mut i: usize = 0;
    while i < a.len()
        invariant
            i <= a@.len() == b@.len(),
            forall|j: int| 0 <= j < i ==> a@[j] == b@[j],
        decreases a@.len() - i,
    {
        if a[i] != b[i] {
            return false;
        }
        i = i + 1;
    }
    assert(a@ =~= b@);
    true
}

/// Whether `a * b` fits a petgraph graph, for factors that each do.
fn product_fits(a: u64, b: u64) -> (r: bool)
    requires
        a <= GRAPH_LIMIT,
        b <= GRAPH_LIMIT,
    ensures
        r == fits_graph(a * b),
{
    assert(a * b <= GRAPH_LIMIT * GRAPH_LIMIT) by (nonlinear_arith)
        requires
            a <= GRAPH_LIMIT,
            b <= GRAPH_LIMIT,
    ;
    a * b <= GRAPH_LIMIT
}

/// The probability that a decimal writes, if it lies in `[0, 1]`.
fn to_probability(d: (u64, u64, u64)) -> (r: Option<Probability>)
    ensures
        r == probability_of(d),
{
    if d.0 == 0 {
        Some(Probability { num: d.1, scale: d.2 })
    } else if d.0 == 1 && d.1 == 0 {
        Some(Probability { num: d.2, scale: d.2 })
    } else {
        None
    }
}

/// A decimal that reads and lies in `[0, 1]` is a well-formed probability.
pub proof fn lemma_decimal_probability_wf(tok: Seq<u8>)
    requires
        parse_decimal(tok) is Some,
        probability_of(parse_decimal(tok)->0) is Some,
    ensures
        probability_of(parse_decimal(tok)->0)->0.wf(),
{
    let fp = match split_once(tok, DECIMAL_POINT).1 {
        Some(f) => f,
        None => Seq::empty(),
    };
    lemma_value_below_pow10(fp);
    lemma_pow10_monotone(0, fp.len());
    lemma_pow10_monotone(fp.len(), 18);
    reveal_with_fuel(pow10, 19);
}

impl Model {
    /// The name under which the model is looked up.
    pub fn name_bytes(&self) -> (r: Vec<u8>)
        ensures
            r@ == self.spec_name(),
    {
        let r = match *self {
            Model::BarabasiAlbert => vec![98u8, 97, 114, 97, 98, 97, 115, 105, 95, 97, 108, 98, 101, 114, 116],
            Model::Chain => vec![99u8, 104, 97, 105, 110],
            Model::ErdosRenyi => vec![101u8, 114, 100, 111, 115, 95, 114, 101, 110, 121, 105],
            Model::Tree => vec![116u8, 114, 101, 101],
            Model::WattsStrogatz => vec![119u8, 97, 116, 116, 115, 95, 115, 116, 114, 111, 103, 97, 116, 122],
        };
        assert(r@ =~= self.spec_name());
        r
    }

    /// The short second name of the model.
    pub fn alias_bytes(&self) -> (r: Vec<u8>)
        ensures
            r@ == self.spec_alias(),
    {
        let r = match *self {
            Model::BarabasiAlbert => vec![98u8, 97],
            Model::Chain => vec![99u8, 104, 97, 105, 110],
            Model::ErdosRenyi => vec![101u8, 114],
            Model::Tree => vec![116u8, 114, 101, 101],
            Model::WattsStrogatz => vec![119u8, 115],
        };
        assert(r@ =~= self.spec_alias());
        r
    }

    /// The model that `name` names, by its name or its alias.
    pub fn from_name(name: &Vec<u8>) -> (r: Option<Model>)
        ensures
            r == spec_model_named(name@),
    {
        let models = [
            Model::BarabasiAlbert,
            Model::Chain,
            Model::ErdosRenyi,
            Model::Tree,
            Model::WattsStrogatz,
        ];
        let mut i: usize = 0;
        while i < 5
            invariant
                0 <= i <= 5,
                models@ == seq![
                    Model::BarabasiAlbert,
                    Model::Chain,
                    Model::ErdosRenyi,
                    Model::Tree,
                    Model::WattsStrogatz
                ],
                forall|j: int|
                    0 <= j < i ==> name@ != (#[trigger] models@[j]).spec_name() && name@
                        != models@[j].spec_alias(),
            decreases 5 - i,
        {
            let m = models[i];
            if bytes_eq(name, &m.name_bytes()) || bytes_eq(name, &m.alias_bytes()) {
                return Some(m);
            }
            i = i + 1;
        }
        assert(name@ != models@[0].spec_name() && name@ != models@[0].spec_alias());
        assert(name@ != models@[1].spec_name() && name@ != models@[1].spec_alias());
        assert(name@ != models@[2].spec_name() && name@ != models@[2].spec_alias());
        assert(name@ != models@[3].spec_name() && name@ != models@[3].spec_alias());
        assert(name@ != models@[4].spec_name() && name@ != models@[4].spec_alias());
        None
    }

    /// The kinds of the model's parameters, in order.
    pub fn schema_kinds(&self) -> (r: Vec<ParamKind>)
        ensures
            r@ == self.spec_schema(),
    {
        let r = match *self {
            Model::BarabasiAlbert => vec![ParamKind::Count, ParamKind::Count],
            Model::Chain => vec![ParamKind::Count],
            Model::ErdosRenyi => vec![ParamKind::Count, ParamKind::Probability],
            Model::Tree => vec![ParamKind::Count],
            Model::WattsStrogatz => vec![ParamKind::Count, ParamKind::Count, ParamKind::Probability],
        };
        assert(r@ =~= self.spec_schema());
        r
    }

    /// Binds the raw tokens to the model's parameters, see `spec_bind`.
    pub fn bind(&self, tokens: &Vec<Vec<u8>>) -> (r: Result<Params, GenError>)
        ensures
            r == self.spec_bind(token_views(tokens@)),
            r matches Ok(p) ==> p.wf() && p.model() == *self,
    {
        let ghost toks = token_views(tokens@);
        let arity = self.schema_kinds().len();
        if tokens.len() != arity {
            return Err(GenError::ArityMismatch { expected: arity, found: tokens.len() });
        }
        match *self {
            Model::Chain | Model::Tree => {
                let n = match parse_u64(&tokens[0]) {
                    Some(n) => n,
                    None => {
                        return Err(GenError::ParameterParseError { position: 0, kind: ParamKind::Count });
                    },
                };
                if n < 1 || n > GRAPH_LIMIT {
                    return Err(GenError::ParameterRangeError);
                }
                if *self == Model::Chain {
                    Ok(Params::Chain { n: n as usize })
                } else {
                    Ok(Params::Tree { n: n as usize })
                }
            },
            Model::ErdosRenyi => {
                let n = match parse_u64(&tokens[0]) {
                    Some(n) => n,
                    None => {
                        return Err(GenError::ParameterParseError { position: 0, kind: ParamKind::Count });
                    },
                };
                let d = match parse_decimal_token(&tokens[1]) {
                    Some(d) => d,
                    None => {
                        return Err(GenError::ParameterParseError { position: 1, kind: ParamKind::Probability });
                    },
                };
                let p = match to_probability(d) {
                    Some(p) => p,
                    None => {
                        return Err(GenError::ParameterRangeError);
                    },
                };
                proof {
                    lemma_decimal_probability_wf(toks[1]);
                }
                if n < 1 || n > GRAPH_LIMIT || !product_fits(n, n - 1) {
                    return Err(GenError::ParameterRangeError);
                }
                Ok(Params::ErdosRenyi { n: n as usize, p })
            },
            Model::BarabasiAlbert => {
                let n = match parse_u64(&tokens[0]) {
                    Some(n) => n,
                    None => {
                        return Err(GenError::ParameterParseError { position: 0, kind: ParamKind::Count });
                    },
                };
                let m = match parse_u64(&tokens[1]) {
                    Some(m) => m,
                    None => {
                        return Err(GenError::ParameterParseError { position: 1, kind: ParamKind::Count });
                    },
                };
                if m < 1 || m >= n || n > GRAPH_LIMIT || !product_fits(n, m) {
                    return Err(GenError::ParameterRangeError);
                }
                Ok(Params::BarabasiAlbert { n: n as usize, m: m as usize })
            },
            Model::WattsStrogatz => {
                let n = match parse_u64(&tokens[0]) {
                    Some(n) => n,
                    None => {
                        return Err(GenError::ParameterParseError { position: 0, kind: ParamKind::Count });
                    },
                };
                let k = match parse_u64(&tokens[1]) {
                    Some(k) => k,
                    None => {
                        return Err(GenError::ParameterParseError { position: 1, kind: ParamKind::Count });
                    },
                };
                let d = match parse_decimal_token(&tokens[2]) {
                    Some(d) => d,
                    None => {
                        return Err(GenError::ParameterParseError { position: 2, kind: ParamKind::Probability });
                    },
                };
                let p = match to_probability(d) {
                    Some(p) => p,
                    None => {
                        return Err(GenError::ParameterRangeError);
                    },
                };
                proof {
                    lemma_decimal_probability_wf(toks[2]);
                }
                if k % 2 != 0 || k < 2 || k >= n || n > GRAPH_LIMIT || !product_fits(n, k / 2) {
                    return Err(GenError::ParameterRangeError);
                }
                Ok(Params::WattsStrogatz { n: n as usize, k: k as usize, p })
            },
        }
    }
}

impl GeneratorFactory for Model {
    open spec fn spec_factory_name(&self) -> Seq<u8> {
        self.spec_name()
    }

    open spec fn spec_factory_schema(&self) -> Seq<ParamKind> {
        self.spec_schema()
    }

    open spec fn spec_try_with_params(&self, toks: Seq<Seq<u8>>) -> Result<Params, GenError> {
        self.spec_bind(toks)
    }

    fn name(&self) -> (r: Vec<u8>) {
        self.name_bytes()
    }

    fn schema(&self) -> (r: Vec<ParamKind>) {
        self.schema_kinds()
    }

    fn try_with_params(&self, tokens: &Vec<Vec<u8>>) -> (r: Result<Params, GenError>) {
        self.bind(tokens)
    }
}

} // verus!
