//! Time-varying electronic and geometric systems.
use constraint_solver::{
    Binary64, Compiler, Elementary, Exp, NamedValues, NewtonRaphsonSolver, Notation, SolverError,
};
use std::collections::BTreeMap;
use std::f64::consts::{PI, TAU};

/// The number that a primitive stands for.
fn num(x: f64) -> Binary64 {
    Binary64::from_bits(x.to_bits())
}

/// The primitive for a number.
trait Primitive {
    fn f64(self) -> f64;
}

impl Primitive for Binary64 {
    fn f64(self) -> f64 {
        f64::from_bits(self.bits)
    }
}

/// Elementary functions and decimal texts of the platform.
struct Host;

impl Elementary for Host {
    fn power(&self, base: Binary64, exponent: Binary64) -> Binary64 {
        num(base.f64().powf(exponent.f64()))
    }

    fn sin(&self, x: Binary64) -> Binary64 {
        num(x.f64().sin())
    }

    fn cos(&self, x: Binary64) -> Binary64 {
        num(x.f64().cos())
    }

    fn ln(&self, x: Binary64) -> Binary64 {
        num(x.f64().ln())
    }

    fn exp(&self, x: Binary64) -> Binary64 {
        num(x.f64().exp())
    }
}

impl Notation for Host {
    fn plain(&self, x: Binary64) -> String {
        format!("{}", x.f64())
    }

    fn fixed(&self, x: Binary64) -> String {
        format!("{:8.4}", x.f64())
    }

    fn scientific(&self, x: Binary64) -> String {
        format!("{:.2e}", x.f64())
    }
}

/// Number of operating points used by every time-varying validation scenario.
///
/// A single shared count makes accidental one-step "transient" tests visible
/// and keeps the total release-test cost predictable.
const TRANSIENT_STEPS: usize = 100;

/// Return a uniformly spaced time in the inclusive interval `[0, duration]`.
fn sample_time(step: usize, duration: f64) -> f64 {
    duration * step as f64 / (TRANSIENT_STEPS - 1) as f64
}

/// One accepted state in a time-varying validation trace.
struct Sample {
    /// Simulation time or normalized animation time.
    time: f64,
    /// Known parameters and solved values at this sample.
    values: NamedValues,
}

impl Sample {
    /// Construct a sample from the complete accepted solver state.
    fn new(time: f64, values: NamedValues) -> Self {
        Self { time, values }
    }

    /// Return one named parameter or solved value from this sample.
    fn value(&self, name: &str) -> f64 {
        self.values.get(name).expect("the trace holds the name").f64()
    }
}

/// Ordered collection of accepted time-varying samples.
#[derive(Default)]
struct Trace {
    /// Samples in monotonically increasing time order.
    samples: Vec<Sample>,
}

impl Trace {
    /// Append one accepted state.
    fn push(&mut self, sample: Sample) {
        self.samples.push(sample);
    }

    /// Borrow every sample in chronological order.
    fn samples(&self) -> &[Sample] {
        &self.samples
    }

    /// Return the peak-to-peak range of one named quantity.
    fn span(&self, name: &str) -> f64 {
        let minimum = self
            .samples
            .iter()
            .map(|sample| sample.value(name))
            .fold(f64::INFINITY, f64::min);
        let maximum = self
            .samples
            .iter()
            .map(|sample| sample.value(name))
            .fold(f64::NEG_INFINITY, f64::max);
        maximum - minimum
    }

    /// Return the ordinary covariance between two sampled quantities.
    fn covariance(&self, first: &str, second: &str) -> f64 {
        let count = self.samples.len() as f64;
        let first_mean = self
            .samples
            .iter()
            .map(|sample| sample.value(first))
            .sum::<f64>()
            / count;
        let second_mean = self
            .samples
            .iter()
            .map(|sample| sample.value(second))
            .sum::<f64>()
            / count;
        self.samples
            .iter()
            .map(|sample| (sample.value(first) - first_mean) * (sample.value(second) - second_mean))
            .sum::<f64>()
            / count
    }

    /// Print requested quantities as CSV when tests run with output shown.
    fn print(&self, label: &str, names: &[&str]) {
        println!("{label}: time,{}", names.join(","));
        for sample in &self.samples {
            let values = names
                .iter()
                .map(|name| format!("{:.9}", sample.value(name)))
                .collect::<Vec<_>>()
                .join(",");
            println!("{:.9},{values}", sample.time);
        }
    }
}

/// Characteristic KCL scale used to make ampere residuals dimensionless.
const KCL_EQUATION_SCALE: f64 = 1e-3;

/// Characteristic node-voltage scale used for every electrical unknown.
const NODE_VOLTAGE_SCALE: f64 = 5.0;

/// One electrical terminal with a voltage expression and optional KCL row.
#[derive(Clone)]
struct Terminal {
    /// Symbolic terminal voltage in volts.
    voltage: Exp,
    /// Unknown-node name receiving branch-current stamps; known voltages and
    /// ground deliberately have no row.
    unknown_node: Option<String>,
}

impl Terminal {
    /// Borrow the symbolic terminal voltage for controlled-device equations.
    fn voltage(&self) -> &Exp {
        &self.voltage
    }
}

/// Smooth Shockley diode parameters used by diode and circuit tests.
#[derive(Clone, Copy)]
struct DiodeModel {
    /// Reverse saturation current in amperes.
    saturation_current: f64,
    /// Dimensionless emission coefficient.
    emission_coefficient: f64,
    /// Thermal voltage in volts.
    thermal_voltage: f64,
}

impl DiodeModel {
    /// Construct the conventional small-signal silicon model used in tests.
    fn silicon() -> Self {
        Self {
            saturation_current: 1e-12,
            emission_coefficient: 1.0,
            thermal_voltage: 0.025_85,
        }
    }

    /// Return current flowing from anode to cathode for a terminal voltage.
    fn current(&self, voltage: Exp) -> Exp {
        num(self.saturation_current)
            * (Exp::exp(voltage / num(self.emission_coefficient * self.thermal_voltage))
                - num(1.0))
    }
}

/// Compact Ebers–Moll parameters for an NPN bipolar transistor.
#[derive(Clone, Copy)]
struct BjtModel {
    /// Junction saturation current in amperes.
    saturation_current: f64,
    /// Forward common-emitter current gain.
    forward_beta: f64,
    /// Reverse common-emitter current gain used in saturation.
    reverse_beta: f64,
    /// Thermal voltage in volts.
    thermal_voltage: f64,
}

impl BjtModel {
    /// Construct a moderate-gain silicon transistor model.
    fn silicon_npn() -> Self {
        Self {
            saturation_current: 1e-15,
            forward_beta: 100.0,
            reverse_beta: 2.0,
            thermal_voltage: 0.025_85,
        }
    }
}

/// Smooth voltage-controlled switch parameters for MOS logic validation.
#[derive(Clone, Copy)]
struct MosSwitchModel {
    /// Conductance in siemens when the channel is strongly enhanced.
    on_conductance: f64,
    /// Residual off-state conductance in siemens.
    off_conductance: f64,
    /// Gate overdrive at the middle of the smooth transition, in volts.
    threshold_voltage: f64,
    /// Voltage width of the logistic transition between off and on.
    transition_voltage: f64,
}

impl MosSwitchModel {
    /// Construct a symmetric digital MOS channel model.
    fn logic() -> Self {
        Self {
            on_conductance: 1e-2,
            off_conductance: 1e-9,
            threshold_voltage: 1.5,
            transition_voltage: 0.12,
        }
    }

    /// Smoothly interpolate channel conductance from an overdrive voltage.
    fn conductance(&self, overdrive: Exp) -> Exp {
        let activation =
            num(1.0) / (num(1.0) + Exp::exp(-overdrive / num(self.transition_voltage)));
        num(self.off_conductance) + num(self.on_conductance - self.off_conductance) * activation
    }
}

/// Builder that accumulates one KCL residual per unknown voltage node.
struct Circuit {
    /// Deterministically ordered node equations; each expression is the sum of
    /// currents leaving that node.
    kcl: BTreeMap<String, Exp>,
    /// Unknown node names in declaration order for solver-variable selection.
    unknown_nodes: Vec<String>,
}

impl Circuit {
    /// Create an empty circuit with no unknown KCL rows.
    fn new() -> Self {
        Self {
            kcl: BTreeMap::new(),
            unknown_nodes: Vec::new(),
        }
    }

    /// Declare an unknown voltage node and its initially empty KCL equation.
    fn unknown(&mut self, name: &str) -> Terminal {
        if !self.kcl.contains_key(name) {
            self.kcl.insert(name.to_string(), Exp::val(num(0.0)));
            self.unknown_nodes.push(name.to_string());
        }
        Terminal {
            voltage: Exp::var(name),
            unknown_node: Some(name.to_string()),
        }
    }

    /// Refer to a time-varying known voltage supplied with every sample.
    fn known(&self, name: &str) -> Terminal {
        Terminal {
            voltage: Exp::var(name),
            unknown_node: None,
        }
    }

    /// Construct a fixed scalar-voltage terminal.
    fn constant(&self, voltage: f64) -> Terminal {
        Terminal {
            voltage: Exp::val(num(voltage)),
            unknown_node: None,
        }
    }

    /// Construct the conventional zero-volt reference terminal.
    fn ground(&self) -> Terminal {
        self.constant(0.0)
    }

    /// Stamp a branch current flowing from `from` to `to` into both KCL rows.
    fn branch_current(&mut self, from: &Terminal, to: &Terminal, current: Exp) {
        if let Some(node) = &from.unknown_node {
            let existing = self.kcl.get(node).expect("declared node must have KCL");
            self.kcl.insert(node.clone(), existing + &current);
        }
        if let Some(node) = &to.unknown_node {
            let existing = self.kcl.get(node).expect("declared node must have KCL");
            self.kcl.insert(node.clone(), existing - current);
        }
    }

    /// Stamp an ideal resistor between two terminals.
    fn resistor(&mut self, first: &Terminal, second: &Terminal, resistance: f64) {
        let current = (first.voltage() - second.voltage()) / num(resistance);
        self.branch_current(first, second, current);
    }

    /// Stamp a Shockley diode from anode to cathode.
    fn diode(&mut self, anode: &Terminal, cathode: &Terminal, model: DiodeModel) {
        let voltage = anode.voltage() - cathode.voltage();
        let current = model.current(voltage);
        self.branch_current(anode, cathode, current);
    }

    fn capacitor_backward_euler(
        &mut self,
        first: &Terminal,
        second: &Terminal,
        capacitance: f64,
        previous_voltage_name: &str,
        time_step: f64,
    ) {
        let voltage = first.voltage() - second.voltage();
        let previous_voltage = Exp::var(previous_voltage_name);
        let current = num(capacitance / time_step) * (voltage - previous_voltage);
        self.branch_current(first, second, current);
    }

    /// Stamp a three-terminal NPN transistor using smooth Ebers–Moll currents.
    fn npn(
        &mut self,
        collector: &Terminal,
        base: &Terminal,
        emitter: &Terminal,
        model: BjtModel,
    ) {
        let vbe = base.voltage() - emitter.voltage();
        let vbc = base.voltage() - collector.voltage();
        let i_be = num(model.saturation_current)
            * (Exp::exp(vbe / num(model.thermal_voltage)) - num(1.0));
        let i_bc = num(model.saturation_current)
            * (Exp::exp(vbc / num(model.thermal_voltage)) - num(1.0));
        let alpha_forward = model.forward_beta / (model.forward_beta + 1.0);
        let alpha_reverse = model.reverse_beta / (model.reverse_beta + 1.0);

        self.branch_current(base, emitter, num(1.0 - alpha_forward) * &i_be);
        self.branch_current(base, collector, num(1.0 - alpha_reverse) * &i_bc);
        self.branch_current(
            collector,
            emitter,
            num(alpha_forward) * i_be - num(alpha_reverse) * i_bc,
        );
    }

    /// Stamp an n-channel MOS switch between drain and source.
    fn nmos(
        &mut self,
        drain: &Terminal,
        gate: &Terminal,
        source: &Terminal,
        model: MosSwitchModel,
    ) {
        let overdrive = gate.voltage() - source.voltage() - num(model.threshold_voltage);
        let current = model.conductance(overdrive) * (drain.voltage() - source.voltage());
        self.branch_current(drain, source, current);
    }

    /// Stamp a p-channel MOS switch between source and drain.
    fn pmos(
        &mut self,
        source: &Terminal,
        gate: &Terminal,
        drain: &Terminal,
        model: MosSwitchModel,
    ) {
        let overdrive = source.voltage() - gate.voltage() - num(model.threshold_voltage);
        let current = model.conductance(overdrive) * (source.voltage() - drain.voltage());
        self.branch_current(source, drain, current);
    }

    /// Compile all KCL rows and create a warm-started transient simulation.
    fn finish(self) -> Simulation {
        let equations: Vec<Exp> = self.kcl.into_values().collect();
        let equation_count = equations.len();
        let compiled = Compiler::compile(&equations).expect("circuit expressions must compile");
        let solve_variable_refs: Vec<&str> =
            self.unknown_nodes.iter().map(String::as_str).collect();
        let mut variable_scales = NamedValues::new();
        let mut state = NamedValues::new();
        for name in &self.unknown_nodes {
            variable_scales.insert(name, num(NODE_VOLTAGE_SCALE));
            state.insert(name, num(0.0));
        }
        let solver = NewtonRaphsonSolver::new_with_variables(compiled, &solve_variable_refs, Host)
            .expect("every circuit node must appear in a KCL equation")
            .with_equation_scales(vec![num(KCL_EQUATION_SCALE); equation_count])
            .expect("one positive scale is supplied for every KCL row")
            .with_variable_scales(variable_scales)
            .expect("voltage scales name only declared unknown nodes")
            .with_residual_tolerance(num(1e-8));

        Simulation { solver, state }
    }
}

/// Solver whose accepted state becomes the next starting point.
struct Simulation {
    solver: NewtonRaphsonSolver<Host>,
    state: NamedValues,
}

impl Simulation {
    /// Solve one sample after replacing its known parameter values.
    fn step(&mut self, time: f64, parameters: &[(&str, f64)]) -> Result<Sample, SolverError> {
        for (name, x) in parameters {
            self.state.insert(name, num(*x));
        }
        let solution = self.solver.solve(self.state.clone())?;
        self.state = solution.values.clone();
        Ok(Sample::new(time, solution.values))
    }
}

/// Characteristic coordinate size used for normalized geometric corrections.
const COORDINATE_SCALE: f64 = 5.0;

/// Two-dimensional point represented by symbolic coordinate expressions.
#[derive(Clone)]
struct Point {
    /// Horizontal coordinate expression.
    x: Exp,
    /// Vertical coordinate expression.
    y: Exp,
}

/// Circle represented by a symbolic center and radius.
#[derive(Clone)]
struct Circle {
    /// Symbolic center point.
    center: Point,
    /// Symbolic positive radius supplied by the test scenario.
    radius: Exp,
}

/// Normal-form line `a*x + b*y + c = 0` with symbolic coefficients.
#[derive(Clone)]
struct Line {
    /// Horizontal unit-normal coefficient.
    a: Exp,
    /// Vertical unit-normal coefficient.
    b: Exp,
    /// Signed line offset.
    c: Exp,
}

/// Builder for a consistent set of named geometric equations and scales.
struct Geometry {
    /// Zero-valued residual expressions in declaration order.
    equations: Vec<Exp>,
    /// Positive characteristic scale corresponding to every residual.
    equation_scales: Vec<f64>,
    /// Unknown names selected as solver variables.
    solve_variables: Vec<String>,
    /// Initial values for unknowns before the first animated sample.
    initial_values: NamedValues,
    /// Characteristic scale for each declared unknown.
    variable_scales: NamedValues,
}

impl Geometry {
    /// Construct an empty geometric constraint system.
    fn new() -> Self {
        Self {
            equations: Vec::new(),
            equation_scales: Vec::new(),
            solve_variables: Vec::new(),
            initial_values: NamedValues::new(),
            variable_scales: NamedValues::new(),
        }
    }

    /// Declare an unknown point with a named coordinate pair and initial value.
    fn unknown_point(&mut self, name: &str, x: f64, y: f64) -> Point {
        let x_name = format!("{name}_x");
        let y_name = format!("{name}_y");
        self.add_unknown(&x_name, x, COORDINATE_SCALE);
        self.add_unknown(&y_name, y, COORDINATE_SCALE);
        Point {
            x: Exp::var(&x_name),
            y: Exp::var(&y_name),
        }
    }

    /// Construct a point whose coordinates are supplied at every sample.
    fn known_point(&self, x_name: &str, y_name: &str) -> Point {
        Point {
            x: Exp::var(x_name),
            y: Exp::var(y_name),
        }
    }

    /// Declare an unknown normalized line and its initial coefficients.
    fn unknown_line(&mut self, name: &str, a: f64, b: f64, c: f64) -> Line {
        let a_name = format!("{name}_a");
        let b_name = format!("{name}_b");
        let c_name = format!("{name}_c");
        self.add_unknown(&a_name, a, 1.0);
        self.add_unknown(&b_name, b, 1.0);
        self.add_unknown(&c_name, c, COORDINATE_SCALE);
        Line {
            a: Exp::var(&a_name),
            b: Exp::var(&b_name),
            c: Exp::var(&c_name),
        }
    }

    /// Construct a circle from an existing center and symbolic radius.
    fn circle(&self, center: Point, radius: Exp) -> Circle {
        Circle { center, radius }
    }

    /// Add one residual with its positive characteristic magnitude.
    fn constrain(&mut self, residual: Exp, scale: f64) {
        self.equations.push(residual);
        self.equation_scales.push(scale);
    }

    /// Require a line's `(a,b)` normal to have unit Euclidean length.
    fn constrain_normalized(&mut self, line: &Line) {
        self.constrain(&line.a * &line.a + &line.b * &line.b - num(1.0), 1.0);
    }

    /// Require a normalized line to be tangent to one signed side of a circle.
    fn constrain_line_circle_tangent(&mut self, line: &Line, circle: &Circle, side: f64) {
        let signed_distance = &line.a * &circle.center.x + &line.b * &circle.center.y + &line.c;
        self.constrain(signed_distance - num(side) * &circle.radius, COORDINATE_SCALE);
    }

    /// Require two circles to be externally tangent without selecting direction.
    fn constrain_external_tangency(&mut self, first: &Circle, second: &Circle) {
        let dx = &first.center.x - &second.center.x;
        let dy = &first.center.y - &second.center.y;
        let radius_sum = &first.radius + &second.radius;
        self.constrain(
            &dx * &dx + &dy * &dy - &radius_sum * &radius_sum,
            COORDINATE_SCALE * COORDINATE_SCALE,
        );
    }

    /// Compile the system and retain its declared initial geometry.
    fn finish(self) -> Simulation {
        let compiled = Compiler::compile(&self.equations)
            .expect("geometric constraint expressions must compile");
        let solve_variable_refs: Vec<&str> =
            self.solve_variables.iter().map(String::as_str).collect();
        let solver = NewtonRaphsonSolver::new_with_variables(compiled, &solve_variable_refs, Host)
            .expect("every geometric unknown must occur in a constraint")
            .with_equation_scales(self.equation_scales.into_iter().map(num).collect())
            .expect("every geometric equation has a positive scale")
            .with_variable_scales(self.variable_scales)
            .expect("geometric scales name only declared unknowns")
            .with_residual_tolerance(num(1e-9));
        Simulation {
            solver,
            state: self.initial_values,
        }
    }

    /// Register one scalar unknown and its numerical scale.
    fn add_unknown(&mut self, name: &str, value: f64, scale: f64) {
        assert!(
            self.initial_values.get(name).is_none(),
            "duplicate geometric unknown {name}"
        );
        self.initial_values.insert(name, num(value));
        self.solve_variables.push(name.to_string());
        self.variable_scales.insert(name, num(scale));
    }
}

/// Return four logic combinations with a twenty-sample slew before each state.
fn logic_inputs(step: usize) -> (f64, f64) {
    let states = [(0.0, 0.0), (0.0, 5.0), (5.0, 5.0), (5.0, 0.0)];
    let segment_length = TRANSIENT_STEPS / states.len();
    let segment = step / segment_length;
    let within_segment = step % segment_length;
    if segment == 0 {
        return states[0];
    }
    let fraction = (within_segment as f64 / 20.0).min(1.0);
    let previous = states[segment - 1];
    let target = states[segment];
    (
        previous.0 + fraction * (target.0 - previous.0),
        previous.1 + fraction * (target.1 - previous.1),
    )
}

/// Classify only settled rail voltages, leaving transition samples unasserted.
fn settled_logic_level(voltage: f64) -> Option<bool> {
    if voltage <= 0.1 {
        Some(false)
    } else if voltage >= 4.9 {
        Some(true)
    } else {
        None
    }
}

/// Validate a resistor-fed diode clipper across positive and negative AC bias.
#[test]
fn ac_source_resistor_diode_clipper_tracks_one_hundred_steps() {
    let mut circuit = Circuit::new();
    let source = circuit.known("source");
    let output = circuit.unknown("output");
    let ground = circuit.ground();
    let diode = DiodeModel::silicon();
    circuit.resistor(&source, &output, 1_000.0);
    circuit.diode(&output, &ground, diode);
    let mut simulation = circuit.finish();
    let mut trace = Trace::default();

    for step in 0..TRANSIENT_STEPS {
        let time = sample_time(step, 1.0 / 60.0);
        let source_voltage = 5.0 * (TAU * 60.0 * time).sin();
        let sample = simulation
            .step(time, &[("source", source_voltage)])
            .expect("every diode clipper operating point must converge");
        trace.push(sample);
    }

    trace.print("diode_clipper", &["source", "output"]);
    assert_eq!(trace.samples().len(), TRANSIENT_STEPS);
    let positive_peak = trace
        .samples()
        .iter()
        .max_by(|left, right| left.value("source").total_cmp(&right.value("source")))
        .expect("trace must contain a positive peak");
    assert!(positive_peak.value("output") > 0.5);
    assert!(positive_peak.value("output") < 0.8);
    assert!(positive_peak.value("output") < positive_peak.value("source"));
    let negative_peak = trace
        .samples()
        .iter()
        .min_by(|left, right| left.value("source").total_cmp(&right.value("source")))
        .expect("trace must contain a negative peak");
    assert!((negative_peak.value("output") - negative_peak.value("source")).abs() < 1e-6);
    assert!(trace.span("output") > 5.0);
}

/// Exercise diode OR and AND gates through every two-input logic combination.
#[test]
fn diode_logic_gates_follow_transient_truth_tables() {
    let mut circuit = Circuit::new();
    let input_a = circuit.known("input_a");
    let input_b = circuit.known("input_b");
    let supply = circuit.constant(5.0);
    let ground = circuit.ground();
    let or_output = circuit.unknown("or_output");
    let and_output = circuit.unknown("and_output");
    let diode = DiodeModel::silicon();

    circuit.resistor(&or_output, &ground, 10_000.0);
    circuit.diode(&input_a, &or_output, diode);
    circuit.diode(&input_b, &or_output, diode);
    circuit.resistor(&supply, &and_output, 10_000.0);
    circuit.diode(&and_output, &input_a, diode);
    circuit.diode(&and_output, &input_b, diode);

    let mut simulation = circuit.finish();
    let mut trace = Trace::default();
    for step in 0..TRANSIENT_STEPS {
        let time = sample_time(step, 1e-3);
        let (a, b) = logic_inputs(step);
        let sample = simulation
            .step(time, &[("input_a", a), ("input_b", b)])
            .expect("every diode-logic operating point must converge");
        if let (Some(a_high), Some(b_high)) = (settled_logic_level(a), settled_logic_level(b)) {
            assert_eq!(sample.value("or_output") > 2.5, a_high || b_high);
            assert_eq!(sample.value("and_output") > 2.5, a_high && b_high);
        }
        trace.push(sample);
    }

    trace.print(
        "diode_logic",
        &["input_a", "input_b", "or_output", "and_output"],
    );
    assert_eq!(trace.samples().len(), TRANSIENT_STEPS);
    assert!(trace.span("or_output") > 3.0);
    assert!(trace.span("and_output") > 3.0);
}

/// Validate bipolar inverter and series-transistor NAND behavior over time.
#[test]
fn bipolar_ttl_style_gates_follow_transient_truth_tables() {
    let mut circuit = Circuit::new();
    let input_a = circuit.known("input_a");
    let input_b = circuit.known("input_b");
    let supply = circuit.constant(5.0);
    let ground = circuit.ground();
    let inverter_base = circuit.unknown("inverter_base");
    let inverter_output = circuit.unknown("inverter_output");
    let nand_base_a = circuit.unknown("nand_base_a");
    let nand_base_b = circuit.unknown("nand_base_b");
    let nand_output = circuit.unknown("nand_output");
    let nand_middle = circuit.unknown("nand_middle");
    let transistor = BjtModel::silicon_npn();

    circuit.resistor(&input_a, &inverter_base, 10_000.0);
    circuit.resistor(&supply, &inverter_output, 1_000.0);
    circuit.npn(&inverter_output, &inverter_base, &ground, transistor);

    circuit.resistor(&input_a, &nand_base_a, 10_000.0);
    circuit.resistor(&input_b, &nand_base_b, 10_000.0);
    circuit.resistor(&supply, &nand_output, 1_000.0);
    circuit.resistor(&nand_middle, &ground, 10_000_000.0);
    circuit.npn(&nand_output, &nand_base_a, &nand_middle, transistor);
    circuit.npn(&nand_middle, &nand_base_b, &ground, transistor);

    let mut simulation = circuit.finish();
    let mut trace = Trace::default();
    for step in 0..TRANSIENT_STEPS {
        let time = sample_time(step, 1e-3);
        let (a, b) = logic_inputs(step);
        let sample = simulation
            .step(time, &[("input_a", a), ("input_b", b)])
            .expect("every bipolar-logic operating point must converge");
        if let (Some(a_high), Some(b_high)) = (settled_logic_level(a), settled_logic_level(b)) {
            assert_eq!(sample.value("inverter_output") > 2.5, !a_high);
            assert_eq!(sample.value("nand_output") > 2.5, !a_high || !b_high);
        }
        trace.push(sample);
    }

    trace.print(
        "bipolar_logic",
        &["input_a", "input_b", "inverter_output", "nand_output"],
    );
    assert_eq!(trace.samples().len(), TRANSIENT_STEPS);
    assert!(trace.span("inverter_output") > 3.0);
    assert!(trace.span("nand_output") > 3.0);
}

/// Validate complementary MOS inverter and NAND networks across all inputs.
#[test]
fn cmos_logic_gates_follow_transient_truth_tables() {
    let mut circuit = Circuit::new();
    let input_a = circuit.known("input_a");
    let input_b = circuit.known("input_b");
    let supply = circuit.constant(5.0);
    let ground = circuit.ground();
    let inverter_output = circuit.unknown("inverter_output");
    let nand_output = circuit.unknown("nand_output");
    let nand_middle = circuit.unknown("nand_middle");
    let mosfet = MosSwitchModel::logic();

    circuit.pmos(&supply, &input_a, &inverter_output, mosfet);
    circuit.nmos(&inverter_output, &input_a, &ground, mosfet);

    circuit.pmos(&supply, &input_a, &nand_output, mosfet);
    circuit.pmos(&supply, &input_b, &nand_output, mosfet);
    circuit.nmos(&nand_output, &input_a, &nand_middle, mosfet);
    circuit.nmos(&nand_middle, &input_b, &ground, mosfet);

    let mut simulation = circuit.finish();
    let mut trace = Trace::default();
    for step in 0..TRANSIENT_STEPS {
        let time = sample_time(step, 1e-3);
        let (a, b) = logic_inputs(step);
        let sample = simulation
            .step(time, &[("input_a", a), ("input_b", b)])
            .expect("every CMOS operating point must converge");
        if let (Some(a_high), Some(b_high)) = (settled_logic_level(a), settled_logic_level(b)) {
            assert_eq!(sample.value("inverter_output") > 2.5, !a_high);
            assert_eq!(sample.value("nand_output") > 2.5, !a_high || !b_high);
        }
        trace.push(sample);
    }

    trace.print(
        "cmos_logic",
        &["input_a", "input_b", "inverter_output", "nand_output"],
    );
    assert_eq!(trace.samples().len(), TRANSIENT_STEPS);
    assert!(trace.span("inverter_output") > 4.5);
    assert!(trace.span("nand_output") > 4.5);
}

/// Simulate a backward-Euler RC low-pass filter driven by a sine wave.
#[test]
fn rc_low_pass_filter_attenuates_over_one_hundred_steps() {
    let duration = 0.2;
    let time_step = duration / (TRANSIENT_STEPS - 1) as f64;
    let mut circuit = Circuit::new();
    let source = circuit.known("source");
    let previous_output = "previous_output";
    let output = circuit.unknown("output");
    let ground = circuit.ground();
    circuit.resistor(&source, &output, 1_000.0);
    circuit.capacitor_backward_euler(&output, &ground, 10e-6, previous_output, time_step);
    let mut simulation = circuit.finish();
    let mut trace = Trace::default();
    let mut previous_voltage = 0.0;

    for step in 0..TRANSIENT_STEPS {
        let time = sample_time(step, duration);
        let source_voltage = (TAU * 10.0 * time).sin();
        let sample = simulation
            .step(
                time,
                &[
                    ("source", source_voltage),
                    (previous_output, previous_voltage),
                ],
            )
            .expect("every RC backward-Euler step must converge");
        previous_voltage = sample.value("output");
        trace.push(sample);
    }

    trace.print("rc_low_pass", &["source", "output"]);
    assert_eq!(trace.samples().len(), TRANSIENT_STEPS);
    assert!(trace.span("source") > 1.9);
    assert!(trace.span("output") > 1.0);
    assert!(trace.span("output") < trace.span("source"));
}

/// Simulate a nonlinear common-emitter voltage amplifier over two AC cycles.
#[test]
fn common_emitter_amplifier_inverts_a_small_signal() {
    let mut circuit = Circuit::new();
    let source = circuit.known("source");
    let supply = circuit.constant(5.0);
    let ground = circuit.ground();
    let base = circuit.unknown("base");
    let output = circuit.unknown("output");
    let transistor = BjtModel::silicon_npn();
    circuit.resistor(&source, &base, 50_000.0);
    circuit.resistor(&supply, &output, 2_000.0);
    circuit.npn(&output, &base, &ground, transistor);
    let mut simulation = circuit.finish();
    let mut trace = Trace::default();

    for step in 0..TRANSIENT_STEPS {
        let time = sample_time(step, 2e-3);
        let source_voltage = 0.78 + 0.04 * (TAU * 1_000.0 * time).sin();
        let sample = simulation
            .step(time, &[("source", source_voltage)])
            .expect("every common-emitter operating point must converge");
        assert!((0.0..=5.0).contains(&sample.value("output")));
        trace.push(sample);
    }

    trace.print("common_emitter", &["source", "base", "output"]);
    assert_eq!(trace.samples().len(), TRANSIENT_STEPS);
    assert!(trace.span("output") > 0.1);
    assert!(trace.covariance("source", "output") < 0.0);
}

/// Compute Euclidean distance between two named points in one accepted sample.
fn sample_distance(sample: &Sample, first: &str, second: &str) -> f64 {
    let dx = sample.value(&format!("{first}_x")) - sample.value(&format!("{second}_x"));
    let dy = sample.value(&format!("{first}_y")) - sample.value(&format!("{second}_y"));
    dx.hypot(dy)
}

/// Track one continuously selected common tangent of two moving circles.
#[test]
fn common_tangent_line_tracks_two_circles_for_one_hundred_steps() {
    let first_center_x = 0.0;
    let first_center_y = 0.0;
    let initial_second_x: f64 = 4.0;
    let initial_second_y: f64 = 1.0;
    let center_distance = initial_second_x.hypot(initial_second_y);
    let initial_a = -initial_second_y / center_distance;
    let initial_b = initial_second_x / center_distance;

    let mut geometry = Geometry::new();
    let first_center = geometry.known_point("first_x", "first_y");
    let second_center = geometry.known_point("second_x", "second_y");
    let first_circle = geometry.circle(first_center, Exp::var("first_radius"));
    let second_circle = geometry.circle(second_center, Exp::var("second_radius"));
    let tangent = geometry.unknown_line("tangent", initial_a, initial_b, 1.0);
    geometry.constrain_normalized(&tangent);
    geometry.constrain_line_circle_tangent(&tangent, &first_circle, 1.0);
    geometry.constrain_line_circle_tangent(&tangent, &second_circle, 1.0);
    let mut simulation = geometry.finish();
    let mut trace = Trace::default();

    for step in 0..TRANSIENT_STEPS {
        let time = sample_time(step, 1.0);
        let second_x = 4.0 + 0.5 * (TAU * time).sin();
        let second_y = 1.0 + 0.4 * (TAU * time).sin();
        let sample = simulation
            .step(
                time,
                &[
                    ("first_x", first_center_x),
                    ("first_y", first_center_y),
                    ("second_x", second_x),
                    ("second_y", second_y),
                    ("first_radius", 1.0),
                    ("second_radius", 1.0),
                ],
            )
            .expect("each common-tangent animation sample must converge");
        let a = sample.value("tangent_a");
        let b = sample.value("tangent_b");
        let c = sample.value("tangent_c");
        assert!((a.hypot(b) - 1.0).abs() < 1e-8);
        assert!((a * first_center_x + b * first_center_y + c - 1.0).abs() < 1e-8);
        assert!((a * second_x + b * second_y + c - 1.0).abs() < 1e-8);
        trace.push(sample);
    }

    trace.print(
        "common_tangent",
        &[
            "second_x",
            "second_y",
            "tangent_a",
            "tangent_b",
            "tangent_c",
        ],
    );
    assert_eq!(trace.samples().len(), TRANSIENT_STEPS);
    assert!(trace.span("tangent_a") > 0.02);
    assert!(trace.span("tangent_b") > 0.005);
    assert!(trace.covariance("second_y", "tangent_a") < 0.0);
}

/// Animate a rigid triangular packing of six mutually contacting circles.
#[test]
fn six_circle_tangent_packing_tracks_one_hundred_steps() {
    let initial_centers = [
        (0.0, 0.0),
        (2.0, 0.0),
        (4.0, 0.0),
        (1.0, 3.0_f64.sqrt()),
        (3.0, 3.0_f64.sqrt()),
        (2.0, 2.0 * 3.0_f64.sqrt()),
    ];
    let contact_pairs = [
        (0, 1),
        (1, 2),
        (0, 3),
        (1, 3),
        (1, 4),
        (2, 4),
        (3, 4),
        (3, 5),
        (4, 5),
    ];

    let mut geometry = Geometry::new();
    let points: Vec<_> = initial_centers
        .iter()
        .enumerate()
        .map(|(index, (x, y))| geometry.unknown_point(&format!("circle_{index}"), *x, *y))
        .collect();
    let circles: Vec<_> = points
        .into_iter()
        .map(|point| geometry.circle(point, Exp::var("radius")))
        .collect();
    for (first, second) in contact_pairs {
        geometry.constrain_external_tangency(&circles[first], &circles[second]);
    }
    geometry.constrain(&circles[0].center.x - Exp::var("center_x"), 5.0);
    geometry.constrain(&circles[0].center.y - Exp::var("center_y"), 5.0);
    geometry.constrain(&circles[1].center.y - Exp::var("center_y"), 5.0);
    let mut simulation = geometry.finish();
    let mut trace = Trace::default();

    for step in 0..TRANSIENT_STEPS {
        let time = sample_time(step, 1.0);
        let center_x = 0.5 * (TAU * time).sin();
        let center_y = 0.25 * (TAU * time).sin();
        let radius = 1.0 + 0.1 * (2.0 * PI * time).sin();
        let sample = simulation
            .step(
                time,
                &[
                    ("center_x", center_x),
                    ("center_y", center_y),
                    ("radius", radius),
                ],
            )
            .expect("each six-circle packing sample must converge");

        for (first, second) in contact_pairs {
            let distance = sample_distance(
                &sample,
                &format!("circle_{first}"),
                &format!("circle_{second}"),
            );
            assert!((distance - 2.0 * radius).abs() < 1e-7);
        }
        for first in 0..circles.len() {
            for second in (first + 1)..circles.len() {
                assert!(
                    sample_distance(
                        &sample,
                        &format!("circle_{first}"),
                        &format!("circle_{second}")
                    ) >= 2.0 * radius - 1e-7
                );
            }
        }
        trace.push(sample);
    }

    trace.print(
        "six_circle_packing",
        &[
            "radius",
            "circle_0_x",
            "circle_0_y",
            "circle_5_x",
            "circle_5_y",
        ],
    );
    assert_eq!(trace.samples().len(), TRANSIENT_STEPS);
    assert!(trace.span("circle_0_x") > 0.9);
    assert!(trace.span("circle_5_y") > 0.5);
}
