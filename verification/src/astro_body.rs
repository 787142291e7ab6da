//! Astronomical bodies, as a document declares them: which commands are
//! bodies, which textures they name, and what has to be computed for each.

use vstd::prelude::*;
use vstd::slice::slice_to_vec;
use crate::builtins::{is_word, word_bytes};
use crate::bytes::texts;
use crate::builtins::spec_constant;
use crate::eval::{
    lemma_slot_of, resolve, spec_resolve, Bindings, Environment, EvalError, EvalErrorModel, Term,
    TermModel,
};
use crate::model::{ArgModel, CommandModel, ExpressionModel, PropertyModel};
use crate::parser::{
    arg_models, command_models, lemma_block_model, lemma_com_model, Arg, Command, Property,
};

verus! {

/// The name and the block of the command `c`, where `c` declares a body:
/// an invocation of three arguments or more, the word `astro`, a name and
/// a block.
pub open spec fn spec_astro(c: CommandModel) -> Option<(Seq<u8>, Seq<CommandModel>)> {
    match c {
        CommandModel::Com(args) => if args.len() >= 3 && args[0] == ArgModel::Str(
            word_bytes("astro"@),
        ) {
            match (args[1], args[2]) {
                (ArgModel::Str(name), ArgModel::Block(block)) => Some((name, block)),
                _ => None,
            }
        } else {
            None
        },
        _ => None,
    }
}

/// Takes the command `command` apart where it declares a body: its name
/// and the commands of its block.
pub fn parse_astro_command(command: &Command) -> (r: Option<(&Vec<u8>, &Vec<Command>)>)
    ensures
        match r {
            Some((name, block)) => spec_astro(command@) == Some((name@, command_models(block@))),
            None => spec_astro(command@) is None,
        },
        r matches Some((_, block)) ==> decreases_to!(command => block),
{
    proof {
        reveal_strlit("astro");
    }
    match command {
        Command::Com(v) => {
            proof {
                lemma_com_model(*v);
            }
            if v.len() < 3 {
                return None;
            }
            assert(arg_models(v@)[0] == v@[0]@);
            assert(arg_models(v@)[1] == v@[1]@);
            assert(arg_models(v@)[2] == v@[2]@);
            match &v[0] {
                Arg::Str(word) => {
                    if !is_word(word.as_slice(), "astro") {
                        return None;
                    }
                },
                Arg::Block(_) => {
                    return None;
                },
            }
            let name = match &v[1] {
                Arg::Str(s) => s,
                Arg::Block(_) => {
                    return None;
                },
            };
            match &v[2] {
                Arg::Block(block) => {
                    proof {
                        lemma_block_model(*block);
                    }
                    Some((name, block))
                },
                Arg::Str(_) => None,
            }
        },
        _ => None,
    }
}

/// The textures that the body `c` and the bodies inside it name, in
/// document order. A command that declares no body names none.
pub open spec fn spec_textures(c: CommandModel) -> Seq<Seq<u8>>
    decreases c, 0int,
{
    match spec_astro(c) {
        Some((_, block)) => spec_block_textures(block),
        None => Seq::empty(),
    }
}

/// The textures that the commands of a body's block name, in order: the
/// string of each property `texture`, and the textures of each body
/// inside.
pub open spec fn spec_block_textures(block: Seq<CommandModel>) -> Seq<Seq<u8>>
    decreases block, 1int,
{
    if block.len() == 0 {
        Seq::empty()
    } else {
        spec_block_textures(block.drop_last()) + (match block.last() {
            CommandModel::Prop(key, PropertyModel::Str(value)) => if key == word_bytes(
                "texture"@,
            ) {
                seq![value]
            } else {
                Seq::empty()
            },
            CommandModel::Com(_) => spec_textures(block.last()),
            _ => Seq::empty(),
        })
    }
}

/// Appends to `textures` the textures that the body `command` and the
/// bodies inside it name. The result is always `None`.
pub fn scan_textures(command: &Command, textures: &mut Vec<Vec<u8>>) -> (r: Option<()>)
    ensures
        r is None,
        texts(final(textures)@) == texts(old(textures)@) + spec_textures(command@),
    decreases command,
{
    let ghost start = texts(textures@);
    let block = match parse_astro_command(command) {
        Some((_, block)) => block,
        None => {
            assert(start + Seq::<Seq<u8>>::empty() =~= start);
            return None;
        },
    };
    let ghost models = command_models(block@);
    let mut i: usize = 0;
    proof {
        assert(models.take(0) =~= Seq::<CommandModel>::empty());
        assert(start + Seq::<Seq<u8>>::empty() =~= start);
    }
    while i < block.len()
        invariant
            i <= block@.len(),
            decreases_to!(command => block),
            models == command_models(block@),
            texts(textures@) == start + spec_block_textures(models.take(i as int)),
        decreases block@.len() - i,
    {
        let ghost before = texts(textures@);
        proof {
            reveal_strlit("texture");
            vstd::std_specs::vec::axiom_vec_index_decreases(*block, i as int);
            assert(models.take(i + 1).drop_last() =~= models.take(i as int));
            assert(models.take(i + 1).last() == block@[i as int]@);
        }
        let com = &block[i];
        match com {
            Command::Prop(key, Property::Str(value)) => {
                if is_word(key.as_slice(), "texture") {
                    let copy = slice_to_vec(value.as_slice());
                    assert(texts(textures@.push(copy)) =~= before.push(value@));
                    textures.push(copy);
                }
            },
            Command::Com(_) => {
                scan_textures(com, textures);
            },
            _ => {},
        }
        assert(texts(textures@) =~= start + spec_block_textures(models.take(i + 1)));
        i = i + 1;
    }
    assert(models.take(i as int) =~= models);
    None
}

/// The numbers that a body's block may give.
#[derive(Clone, Copy, Debug, PartialEq, Eq, Structural)]
pub enum Quantity {
    Radius,
    SemimajorAxis,
    OrbitPeriod,
    RotationPeriod,
    /// Not zero where the body shines by itself.
    Star,
}

/// The quantity that a property of the name `key` gives, if any.
pub open spec fn spec_quantity(key: Seq<u8>) -> Option<Quantity> {
    if key == word_bytes("radius"@) {
        Some(Quantity::Radius)
    } else if key == word_bytes("semimajor_axis"@) {
        Some(Quantity::SemimajorAxis)
    } else if key == word_bytes("orbit_period"@) {
        Some(Quantity::OrbitPeriod)
    } else if key == word_bytes("rotation_period"@) {
        Some(Quantity::RotationPeriod)
    } else if key == word_bytes("star"@) {
        Some(Quantity::Star)
    } else {
        None
    }
}

/// Looks `key` up among the names of the quantities.
pub fn quantity_of(key: &[u8]) -> (r: Option<Quantity>)
    ensures
        r == spec_quantity(key@),
{
    proof {
        reveal_strlit("radius");
        reveal_strlit("semimajor_axis");
        reveal_strlit("orbit_period");
        reveal_strlit("rotation_period");
        reveal_strlit("star");
    }
    if is_word(key, "radius") {
        Some(Quantity::Radius)
    } else if is_word(key, "semimajor_axis") {
        Some(Quantity::SemimajorAxis)
    } else if is_word(key, "orbit_period") {
        Some(Quantity::OrbitPeriod)
    } else if is_word(key, "rotation_period") {
        Some(Quantity::RotationPeriod)
    } else if is_word(key, "star") {
        Some(Quantity::Star)
    } else {
        None
    }
}

/// What a body plan denotes.
pub struct BodyPlanModel {
    pub name: Seq<u8>,
    pub texture: Option<Seq<u8>>,
    pub radius: Option<TermModel>,
    pub semimajor_axis: Option<TermModel>,
    pub orbit_period: Option<TermModel>,
    pub rotation_period: Option<TermModel>,
    pub star: Option<TermModel>,
    pub children: Seq<BodyPlanModel>,
}

impl BodyPlanModel {
    /// The plan of a body of which only the name is known.
    pub open spec fn new(name: Seq<u8>) -> BodyPlanModel {
        BodyPlanModel {
            name,
            texture: None,
            radius: None,
            semimajor_axis: None,
            orbit_period: None,
            rotation_period: None,
            star: None,
            children: Seq::empty(),
        }
    }

    /// This plan with the quantity `q` given by `t`.
    pub open spec fn with(self, q: Quantity, t: TermModel) -> BodyPlanModel {
        match q {
            Quantity::Radius => BodyPlanModel { radius: Some(t), ..self },
            Quantity::SemimajorAxis => BodyPlanModel { semimajor_axis: Some(t), ..self },
            Quantity::OrbitPeriod => BodyPlanModel { orbit_period: Some(t), ..self },
            Quantity::RotationPeriod => BodyPlanModel { rotation_period: Some(t), ..self },
            Quantity::Star => BodyPlanModel { star: Some(t), ..self },
        }
    }
}

/// What a document says of one body: its name, its texture, a term for
/// each quantity that its block gives, and the bodies inside it. Of a
/// property given twice the last one counts.
#[derive(Debug, PartialEq)]
pub struct BodyPlan {
    pub name: Vec<u8>,
    pub texture: Option<Vec<u8>>,
    pub radius: Option<Term>,
    pub semimajor_axis: Option<Term>,
    pub orbit_period: Option<Term>,
    pub rotation_period: Option<Term>,
    pub star: Option<Term>,
    pub children: Vec<BodyPlan>,
}

/// What the term denotes, if there is one.
pub open spec fn option_term_model(t: Option<Term>) -> Option<TermModel> {
    match t {
        Some(t) => Some(t@),
        None => None,
    }
}

/// What the plan `p` denotes.
pub open spec fn body_plan_model(p: BodyPlan) -> BodyPlanModel
    decreases p,
{
    BodyPlanModel {
        name: p.name@,
        texture: match p.texture {
            Some(t) => Some(t@),
            None => None,
        },
        radius: option_term_model(p.radius),
        semimajor_axis: option_term_model(p.semimajor_axis),
        orbit_period: option_term_model(p.orbit_period),
        rotation_period: option_term_model(p.rotation_period),
        star: option_term_model(p.star),
        children: Seq::new(
            p.children@.len(),
            |i: int|
                if 0 <= i < p.children@.len() {
                    body_plan_model(p.children@[i])
                } else {
                    BodyPlanModel::new(Seq::empty())
                },
        ),
    }
}

impl View for BodyPlan {
    type V = BodyPlanModel;

    open spec fn view(&self) -> BodyPlanModel {
        body_plan_model(*self)
    }
}

/// The plans of `v`, as what they denote.
pub open spec fn body_plan_models(v: Seq<BodyPlan>) -> Seq<BodyPlanModel> {
    v.map_values(|p: BodyPlan| p@)
}

/// The children of a plan's model are the models of its children.
pub proof fn lemma_children_model(p: BodyPlan)
    ensures
        p@.children == body_plan_models(p.children@),
{
    assert(body_plan_model(p).children =~= body_plan_models(p.children@));
}

/// The bindings after a step of planning, and what the step made or the
/// fault that ended it.
pub struct Planned<T> {
    pub bindings: Bindings,
    pub result: Result<T, EvalErrorModel>,
}

/// One command of a body's block, read into `plan` where the definitions
/// so far are `bindings`.
///
/// A property `texture` with a string sets the texture. A property that
/// names a quantity, with an expression, is evaluated and sets the
/// quantity. An invocation that declares a body is planned and becomes
/// the next child. A definition is evaluated and bound. Any other command
/// changes nothing.
pub open spec fn spec_plan_item(
    c: CommandModel,
    bindings: Bindings,
    plan: BodyPlanModel,
) -> Planned<BodyPlanModel>
    decreases c, 1int,
{
    match c {
        CommandModel::Prop(key, PropertyModel::Str(text)) => Planned {
            bindings,
            result: Ok(
                if key == word_bytes("texture"@) {
                    BodyPlanModel { texture: Some(text), ..plan }
                } else {
                    plan
                },
            ),
        },
        CommandModel::Prop(key, PropertyModel::Expr(e)) => match spec_quantity(key) {
            None => Planned { bindings, result: Ok(plan) },
            Some(q) => match spec_resolve(e, bindings.names) {
                Ok(t) => Planned { bindings, result: Ok(plan.with(q, t)) },
                Err(err) => Planned { bindings, result: Err(err) },
            },
        },
        CommandModel::Com(_) => {
            let child = spec_plan_body(c, bindings);
            Planned {
                bindings: child.bindings,
                result: match child.result {
                    Ok(Some(body)) => Ok(
                        BodyPlanModel { children: plan.children.push(body), ..plan },
                    ),
                    Ok(None) => Ok(plan),
                    Err(err) => Err(err),
                },
            }
        },
        CommandModel::Def(name, e) => match spec_resolve(e, bindings.names) {
            Ok(t) => Planned { bindings: bindings.bind(name, t), result: Ok(plan) },
            Err(err) => Planned { bindings, result: Err(err) },
        },
    }
}

/// The commands of a body's block, read into `plan` in order. The first
/// fault ends the reading.
pub open spec fn spec_plan_block(
    block: Seq<CommandModel>,
    bindings: Bindings,
    plan: BodyPlanModel,
) -> Planned<BodyPlanModel>
    decreases block, 2int,
{
    if block.len() == 0 {
        Planned { bindings, result: Ok(plan) }
    } else {
        let before = spec_plan_block(block.drop_last(), bindings, plan);
        match before.result {
            Ok(so_far) => spec_plan_item(block.last(), before.bindings, so_far),
            Err(_) => before,
        }
    }
}

/// The plan of the body that `c` declares, if it declares one, where the
/// definitions so far are `bindings`.
pub open spec fn spec_plan_body(c: CommandModel, bindings: Bindings) -> Planned<
    Option<BodyPlanModel>,
>
    decreases c, 0int,
{
    match spec_astro(c) {
        None => Planned { bindings, result: Ok(None) },
        Some((name, block)) => {
            let read = spec_plan_block(block, bindings, BodyPlanModel::new(name));
            Planned {
                bindings: read.bindings,
                result: match read.result {
                    Ok(plan) => Ok(Some(plan)),
                    Err(err) => Err(err),
                },
            }
        },
    }
}

/// One command of a document, after the bodies in `acc`: a body is
/// planned and joins them, a definition is evaluated and bound.
pub open spec fn spec_plan_command(
    c: CommandModel,
    bindings: Bindings,
    acc: Seq<BodyPlanModel>,
) -> Planned<Seq<BodyPlanModel>> {
    let body = spec_plan_body(c, bindings);
    match body.result {
        Err(err) => Planned { bindings: body.bindings, result: Err(err) },
        Ok(found) => {
            let bodies = match found {
                Some(plan) => acc.push(plan),
                None => acc,
            };
            match c {
                CommandModel::Def(name, e) => match spec_resolve(e, body.bindings.names) {
                    Ok(t) => Planned { bindings: body.bindings.bind(name, t), result: Ok(bodies) },
                    Err(err) => Planned { bindings: body.bindings, result: Err(err) },
                },
                _ => Planned { bindings: body.bindings, result: Ok(bodies) },
            }
        },
    }
}

/// The bodies that the document `commands` declares, in order, where the
/// definitions before it are `bindings`. The commands are read in
/// document order, and each is read with the definitions that the ones
/// before it left. The first fault ends the reading.
pub open spec fn spec_plan_bodies(commands: Seq<CommandModel>, bindings: Bindings) -> Planned<
    Seq<BodyPlanModel>,
>
    decreases commands.len(),
{
    if commands.len() == 0 {
        Planned { bindings, result: Ok(Seq::empty()) }
    } else {
        let before = spec_plan_bodies(commands.drop_last(), bindings);
        match before.result {
            Ok(bodies) => spec_plan_command(commands.last(), before.bindings, bodies),
            Err(_) => before,
        }
    }
}

/// A fault stays: once reading a block has failed, more commands after
/// it change nothing.
pub proof fn lemma_plan_block_fault(
    block: Seq<CommandModel>,
    k: int,
    bindings: Bindings,
    plan: BodyPlanModel,
)
    requires
        0 <= k <= block.len(),
        spec_plan_block(block.take(k), bindings, plan).result is Err,
    ensures
        spec_plan_block(block, bindings, plan) == spec_plan_block(block.take(k), bindings, plan),
    decreases block.len() - k,
{
    if k < block.len() {
        assert(block.take(k + 1).drop_last() =~= block.take(k));
        lemma_plan_block_fault(block, k + 1, bindings, plan);
    } else {
        assert(block.take(k) =~= block);
    }
}

/// A fault stays: once reading a document has failed, more commands
/// after it change nothing.
pub proof fn lemma_plan_bodies_fault(commands: Seq<CommandModel>, k: int, bindings: Bindings)
    requires
        0 <= k <= commands.len(),
        spec_plan_bodies(commands.take(k), bindings).result is Err,
    ensures
        spec_plan_bodies(commands, bindings) == spec_plan_bodies(commands.take(k), bindings),
    decreases commands.len() - k,
{
    if k < commands.len() {
        assert(commands.take(k + 1).drop_last() =~= commands.take(k));
        lemma_plan_bodies_fault(commands, k + 1, bindings);
    } else {
        assert(commands.take(k) =~= commands);
    }
}

/// Whether the result `r` and the bindings `after` are what planning
/// comes to, `m`.
pub open spec fn planned_body(
    r: Result<Option<BodyPlan>, EvalError>,
    after: Bindings,
    m: Planned<Option<BodyPlanModel>>,
) -> bool {
    &&& after == m.bindings
    &&& match r {
        Ok(Some(p)) => m.result == Ok::<Option<BodyPlanModel>, EvalErrorModel>(Some(p@)),
        Ok(None) => m.result == Ok::<Option<BodyPlanModel>, EvalErrorModel>(None),
        Err(e) => m.result == Err::<Option<BodyPlanModel>, EvalErrorModel>(e@),
    }
}

/// Whether the result `r` and the bindings `after` are what planning
/// comes to, `m`.
pub open spec fn planned_bodies(
    r: Result<Vec<BodyPlan>, EvalError>,
    after: Bindings,
    m: Planned<Seq<BodyPlanModel>>,
) -> bool {
    &&& after == m.bindings
    &&& match r {
        Ok(v) => m.result == Ok::<Seq<BodyPlanModel>, EvalErrorModel>(body_plan_models(v@)),
        Err(e) => m.result == Err::<Seq<BodyPlanModel>, EvalErrorModel>(e@),
    }
}

/// Plans the body that `command` declares, if it declares one: what its
/// block says of it, with every expression evaluated, up to the
/// arithmetic, where it stands. The definitions of the block are bound
/// in `env` and stay bound after the block.
pub fn plan_body(command: &Command, env: &mut Environment) -> (r: Result<
    Option<BodyPlan>,
    EvalError,
>)
    ensures
        planned_body(r, final(env).bindings(), spec_plan_body(command@, old(env).bindings())),
    decreases command,
{
    let (name, block) = match parse_astro_command(command) {
        Some(found) => found,
        None => {
            return Ok(None);
        },
    };
    let mut plan = BodyPlan {
        name: slice_to_vec(name.as_slice()),
        texture: None,
        radius: None,
        semimajor_axis: None,
        orbit_period: None,
        rotation_period: None,
        star: None,
        children: Vec::new(),
    };
    let ghost start = env.bindings();
    let ghost fresh = BodyPlanModel::new(name@);
    let ghost models = command_models(block@);
    proof {
        assert(plan@.children =~= Seq::<BodyPlanModel>::empty());
        assert(models.take(0) =~= Seq::<CommandModel>::empty());
    }
    let mut i: usize = 0;
    while i < block.len()
        invariant
            i <= block@.len(),
            decreases_to!(command => block),
            models == command_models(block@),
            start == old(env).bindings(),
            fresh == BodyPlanModel::new(name@),
            spec_astro(command@) == Some((name@, models)),
            spec_plan_block(models.take(i as int), start, fresh) == (Planned::<BodyPlanModel> {
                bindings: env.bindings(),
                result: Ok(plan@),
            }),
        decreases block@.len() - i,
    {
        let ghost before = plan@;
        let ghost bound = env.bindings();
        proof {
            reveal_strlit("texture");
            vstd::std_specs::vec::axiom_vec_index_decreases(*block, i as int);
            assert(models.take(i + 1).drop_last() =~= models.take(i as int));
            assert(models.take(i + 1).last() == block@[i as int]@);
        }
        let com = &block[i];
        match com {
            Command::Prop(key, Property::Str(text)) => {
                if is_word(key.as_slice(), "texture") {
                    plan.texture = Some(slice_to_vec(text.as_slice()));
                    assert(plan@ == (BodyPlanModel { texture: Some(text@), ..before })) by {
                        assert(plan@.children =~= before.children);
                    }
                }
            },
            Command::Prop(key, Property::Expr(e)) => {
                match quantity_of(key.as_slice()) {
                    None => {},
                    Some(q) => {
                        let t = match resolve(e, env) {
                            Ok(t) => t,
                            Err(err) => {
                                proof {
                                    assert(spec_plan_item(com@, bound, before).result is Err);
                                    lemma_plan_block_fault(models, i + 1, start, fresh);
                                }
                                return Err(err);
                            },
                        };
                        let ghost tm = t@;
                        match q {
                            Quantity::Radius => {
                                plan.radius = Some(t);
                            },
                            Quantity::SemimajorAxis => {
                                plan.semimajor_axis = Some(t);
                            },
                            Quantity::OrbitPeriod => {
                                plan.orbit_period = Some(t);
                            },
                            Quantity::RotationPeriod => {
                                plan.rotation_period = Some(t);
                            },
                            Quantity::Star => {
                                plan.star = Some(t);
                            },
                        }
                        assert(plan@ == before.with(q, tm)) by {
                            assert(plan@.children =~= before.children);
                        }
                    },
                }
            },
            Command::Com(_) => {
                match plan_body(com, env) {
                    Err(err) => {
                        proof {
                            lemma_plan_block_fault(models, i + 1, start, fresh);
                        }
                        return Err(err);
                    },
                    Ok(None) => {},
                    Ok(Some(child)) => {
                        let ghost cm = child@;
                        plan.children.push(child);
                        assert(plan@ == (BodyPlanModel {
                            children: before.children.push(cm),
                            ..before
                        })) by {
                            assert(plan@.children =~= before.children.push(cm));
                        }
                    },
                }
            },
            Command::Def(defined, e) => {
                match env.define(defined.as_slice(), e) {
                    Ok(_) => {},
                    Err(err) => {
                        proof {
                            assert(spec_plan_item(com@, bound, before).result is Err);
                            lemma_plan_block_fault(models, i + 1, start, fresh);
                        }
                        return Err(err);
                    },
                }
            },
        }
        i = i + 1;
    }
    assert(models.take(i as int) =~= models);
    Ok(Some(plan))
}

/// Plans the bodies that the document `commands` declares, in order.
/// The definitions of the document are bound in `env`, each where it
/// stands: a command is read with the definitions before it and with none
/// after it.
pub fn plan_bodies(commands: &[Command], env: &mut Environment) -> (r: Result<
    Vec<BodyPlan>,
    EvalError,
>)
    ensures
        planned_bodies(
            r,
            final(env).bindings(),
            spec_plan_bodies(command_models(commands@), old(env).bindings()),
        ),
{
    let mut bodies: Vec<BodyPlan> = Vec::new();
    let ghost start = env.bindings();
    let ghost models = command_models(commands@);
    proof {
        assert(models.take(0) =~= Seq::<CommandModel>::empty());
        assert(body_plan_models(bodies@) =~= Seq::<BodyPlanModel>::empty());
    }
    let mut i: usize = 0;
    while i < commands.len()
        invariant
            i <= commands@.len(),
            models == command_models(commands@),
            start == old(env).bindings(),
            spec_plan_bodies(models.take(i as int), start) == (Planned::<Seq<BodyPlanModel>> {
                bindings: env.bindings(),
                result: Ok(body_plan_models(bodies@)),
            }),
        decreases commands@.len() - i,
    {
        proof {
            assert(models.take(i + 1).drop_last() =~= models.take(i as int));
            assert(models.take(i + 1).last() == commands@[i as int]@);
        }
        let command = &commands[i];
        match plan_body(command, env) {
            Err(err) => {
                proof {
                    lemma_plan_bodies_fault(models, i + 1, start);
                }
                return Err(err);
            },
            Ok(None) => {},
            Ok(Some(body)) => {
                assert(body_plan_models(bodies@.push(body)) =~= body_plan_models(bodies@).push(
                    body@,
                ));
                bodies.push(body);
            },
        }
        match command {
            Command::Def(name, e) => {
                match env.define(name.as_slice(), e) {
                    Ok(_) => {},
                    Err(err) => {
                        proof {
                            lemma_plan_bodies_fault(models, i + 1, start);
                        }
                        return Err(err);
                    },
                }
            },
            _ => {},
        }
        i = i + 1;
    }
    assert(models.take(i as int) =~= models);
    Ok(bodies)
}

/// Whether the names `a` are the first of the names `b`, slot by slot.
pub open spec fn is_prefix(a: Seq<Seq<u8>>, b: Seq<Seq<u8>>) -> bool {
    a.len() <= b.len() && a == b.take(a.len() as int)
}

proof fn lemma_prefix_chain(a: Seq<Seq<u8>>, b: Seq<Seq<u8>>, c: Seq<Seq<u8>>)
    requires
        is_prefix(a, b),
        is_prefix(b, c),
    ensures
        is_prefix(a, c),
{
    assert(a =~= c.take(a.len() as int)) by {
        assert forall|k: int| 0 <= k < a.len() implies a[k] == c[k] by {
            assert(a[k] == b.take(a.len() as int)[k]);
            assert(b[k] == c.take(b.len() as int)[k]);
        }
    }
}

proof fn lemma_prefix_push(a: Seq<Seq<u8>>, name: Seq<u8>)
    ensures
        is_prefix(a, a),
        is_prefix(a, a.push(name)),
{
    assert(a =~= a.take(a.len() as int));
    assert(a =~= a.push(name).take(a.len() as int));
}

/// Reading a command of a block binds more names and unbinds none.
pub proof fn lemma_plan_item_grows(c: CommandModel, bindings: Bindings, plan: BodyPlanModel)
    ensures
        is_prefix(bindings.names, spec_plan_item(c, bindings, plan).bindings.names),
    decreases c, 1int,
{
    match c {
        CommandModel::Com(_) => {
            lemma_plan_body_grows(c, bindings);
        },
        CommandModel::Def(name, _) => {
            lemma_prefix_push(bindings.names, name);
        },
        _ => {
            lemma_prefix_push(bindings.names, Seq::empty());
        },
    }
}

/// Reading a block binds more names and unbinds none.
pub proof fn lemma_plan_block_grows(
    block: Seq<CommandModel>,
    bindings: Bindings,
    plan: BodyPlanModel,
)
    ensures
        is_prefix(bindings.names, spec_plan_block(block, bindings, plan).bindings.names),
    decreases block, 2int,
{
    if block.len() == 0 {
        lemma_prefix_push(bindings.names, Seq::empty());
    } else {
        let before = spec_plan_block(block.drop_last(), bindings, plan);
        lemma_plan_block_grows(block.drop_last(), bindings, plan);
        match before.result {
            Ok(so_far) => {
                lemma_plan_item_grows(block.last(), before.bindings, so_far);
                lemma_prefix_chain(
                    bindings.names,
                    before.bindings.names,
                    spec_plan_item(block.last(), before.bindings, so_far).bindings.names,
                );
            },
            Err(_) => {},
        }
    }
}

/// Planning a body binds more names and unbinds none.
pub proof fn lemma_plan_body_grows(c: CommandModel, bindings: Bindings)
    ensures
        is_prefix(bindings.names, spec_plan_body(c, bindings).bindings.names),
    decreases c, 0int,
{
    match spec_astro(c) {
        None => {
            lemma_prefix_push(bindings.names, Seq::empty());
        },
        Some((name, block)) => {
            lemma_plan_block_grows(block, bindings, BodyPlanModel::new(name));
        },
    }
}

/// Reading a command of a document binds more names and unbinds none.
pub proof fn lemma_plan_command_grows(
    c: CommandModel,
    bindings: Bindings,
    acc: Seq<BodyPlanModel>,
)
    ensures
        is_prefix(bindings.names, spec_plan_command(c, bindings, acc).bindings.names),
{
    lemma_plan_body_grows(c, bindings);
    let body = spec_plan_body(c, bindings);
    match c {
        CommandModel::Def(name, _) => {
            lemma_prefix_push(body.bindings.names, name);
            lemma_prefix_chain(
                bindings.names,
                body.bindings.names,
                spec_plan_command(c, bindings, acc).bindings.names,
            );
        },
        _ => {},
    }
}

/// The names that are bound when the command at `k` is read: those that
/// the commands before it left.
pub open spec fn names_before(commands: Seq<CommandModel>, bindings: Bindings, k: int) -> Seq<
    Seq<u8>,
> {
    spec_plan_bodies(commands.take(k), bindings).bindings.names
}

/// Along a document names are bound and never unbound: what is bound
/// before the command at `j` is still bound, in the same slot, before
/// the command at `k`, for `j <= k`.
pub proof fn lemma_names_grow(commands: Seq<CommandModel>, bindings: Bindings, j: int, k: int)
    requires
        0 <= j <= k <= commands.len(),
    ensures
        is_prefix(names_before(commands, bindings, j), names_before(commands, bindings, k)),
    decreases k - j,
{
    if j == k {
        lemma_prefix_push(names_before(commands, bindings, j), Seq::empty());
    } else {
        lemma_names_grow(commands, bindings, j, k - 1);
        let upto = commands.take(k);
        assert(upto.drop_last() =~= commands.take(k - 1));
        let before = spec_plan_bodies(commands.take(k - 1), bindings);
        match before.result {
            Ok(bodies) => {
                lemma_plan_command_grows(upto.last(), before.bindings, bodies);
            },
            Err(_) => {
                lemma_prefix_push(before.bindings.names, Seq::empty());
            },
        }
        lemma_prefix_chain(
            names_before(commands, bindings, j),
            names_before(commands, bindings, k - 1),
            names_before(commands, bindings, k),
        );
    }
}

/// A definition counts from where it stands. Let the command at `i` of a
/// document be a definition of `name`, and let the document be read
/// without a fault up to and with that command. Then an expression that
/// is read at any later place `k` finds `name` bound. And where no
/// definition before `i` bound `name`, an expression that is read at `i`
/// or before it finds `name` unknown.
pub proof fn lemma_definition_order(
    commands: Seq<CommandModel>,
    bindings: Bindings,
    i: int,
    k: int,
    j: int,
    name: Seq<u8>,
    value: ExpressionModel,
)
    requires
        0 <= j <= i < k <= commands.len(),
        commands[i] == CommandModel::Def(name, value),
        spec_plan_bodies(commands.take(i + 1), bindings).result is Ok,
        spec_constant(name) is None,
    ensures
        spec_resolve(ExpressionModel::Ident(name), names_before(commands, bindings, k)) is Ok,
        (forall|s: int|
            0 <= s < names_before(commands, bindings, i).len() ==> names_before(
                commands,
                bindings,
                i,
            )[s] != name) ==> spec_resolve(
            ExpressionModel::Ident(name),
            names_before(commands, bindings, j),
        ) == Err::<TermModel, EvalErrorModel>(EvalErrorModel::UnknownName(name)),
{
    let at = names_before(commands, bindings, i);
    let next = names_before(commands, bindings, i + 1);
    let upto = commands.take(i + 1);
    assert(upto.drop_last() =~= commands.take(i));
    assert(upto.last() == commands[i]);
    let before = spec_plan_bodies(commands.take(i), bindings);
    assert(before.result is Ok);
    assert(spec_astro(commands[i]) is None);
    assert(next == at.push(name));
    // later: the name stays where the definition put it, or moves to a newer slot
    lemma_names_grow(commands, bindings, i + 1, k);
    let later = names_before(commands, bindings, k);
    assert(later[at.len() as int] == name) by {
        assert(next[at.len() as int] == name);
        assert(later.take(next.len() as int)[at.len() as int] == later[at.len() as int]);
    }
    lemma_slot_of(later, name);
    // earlier: nothing that is bound there has the name
    lemma_names_grow(commands, bindings, j, i);
    let earlier = names_before(commands, bindings, j);
    if forall|s: int| 0 <= s < at.len() ==> at[s] != name {
        assert forall|s: int| 0 <= s < earlier.len() implies earlier[s] != name by {
            assert(earlier[s] == at.take(earlier.len() as int)[s]);
        }
        lemma_slot_of(earlier, name);
    }
}

} // verus!
