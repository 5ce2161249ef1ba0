//! End-to-end checks: the model's constraint list and witness region are
//! realised through the halo2 backend and handed to its mock prover.

use halo2_proofs::{
    arithmetic::FieldExt,
    circuit::{AssignedCell, Layouter, SimpleFloorPlanner, Value},
    dev::MockProver,
    pasta::Fp,
    plonk::{
        Advice, Circuit, Column, ConstraintSystem, Error, Expression, Fixed, Instance, Selector,
        TableColumn, VirtualCells,
    },
    poly::Rotation,
};

use sortn_circuit::chip::{clone_config, Constraint, SortNConfig, NUM_ROWS};
use sortn_circuit::circuit::SortNCircuit;
use sortn_circuit::expr::SymExpr;
use sortn_circuit::field::Felt;

pub struct TestConfig {
    advice: Vec<Column<Advice>>,
    instance: Column<Instance>,
    #[allow(dead_code)]
    fixed: Column<Fixed>,
    selectors: Vec<Selector>,
    byte_table: TableColumn,
    model: SortNConfig,
}

impl Clone for TestConfig {
    fn clone(&self) -> Self {
        TestConfig {
            advice: self.advice.clone(),
            instance: self.instance,
            fixed: self.fixed,
            selectors: self.selectors.clone(),
            byte_table: self.byte_table,
            model: clone_config(&self.model),
        }
    }
}

fn to_halo_expr(
    e: &SymExpr,
    meta: &mut VirtualCells<'_, Fp>,
    advice: &[Column<Advice>],
    selectors: &[Selector],
) -> Expression<Fp> {
    match e {
        SymExpr::Constant(Felt { rep }) => Expression::Constant(Fp::from_u128(*rep)),
        SymExpr::Advice { col, rot } => meta.query_advice(advice[*col], Rotation(*rot)),
        SymExpr::Selector { sel } => meta.query_selector(selectors[*sel]),
        SymExpr::Negated(a) => -to_halo_expr(a, meta, advice, selectors),
        SymExpr::Sum(a, b) => {
            to_halo_expr(a, meta, advice, selectors) + to_halo_expr(b, meta, advice, selectors)
        }
        SymExpr::Product(a, b) => {
            to_halo_expr(a, meta, advice, selectors) * to_halo_expr(b, meta, advice, selectors)
        }
    }
}

#[derive(Default)]
pub struct TestCircuit {
    values: Vec<u64>,
}

impl Circuit<Fp> for TestCircuit {
    type Config = TestConfig;
    type FloorPlanner = SimpleFloorPlanner;

    fn without_witnesses(&self) -> Self {
        Self::default()
    }

    fn configure(meta: &mut ConstraintSystem<Fp>) -> Self::Config {
        let model = SortNCircuit::configure();
        let mut advice = Vec::new();
        for _ in 0..model.num_advice {
            let col = meta.advice_column();
            meta.enable_equality(col);
            advice.push(col);
        }
        let instance = meta.instance_column();
        meta.enable_equality(instance);
        let fixed = meta.fixed_column();
        meta.enable_constant(fixed);
        let byte_table = meta.lookup_table_column();
        let mut selectors = Vec::new();
        selectors.push(meta.selector());
        for _ in 1..model.selector_rows.len() {
            selectors.push(meta.complex_selector());
        }
        // One gate per polynomial identity: each is checked only where its
        // own selector fires.
        for c in &model.constraints {
            if let Constraint::Poly(e) = c {
                meta.create_gate("sortN", |meta| {
                    vec![to_halo_expr(e, meta, &advice, &selectors)]
                });
            }
        }
        for c in &model.constraints {
            if let Constraint::ByteRange { sel, col } = c {
                let (sel, col) = (*sel, *col);
                meta.lookup(|meta| {
                    let s = meta.query_selector(selectors[sel]);
                    let b = meta.query_advice(advice[col], Rotation::cur());
                    vec![(s * b, byte_table)]
                });
            }
        }
        TestConfig { advice, instance, fixed, selectors, byte_table, model }
    }

    fn synthesize(
        &self,
        config: Self::Config,
        mut layouter: impl Layouter<Fp>,
    ) -> Result<(), Error> {
        layouter.assign_table(
            || "u8 table",
            |mut table| {
                for v in 0..256u64 {
                    table.assign_cell(
                        || "byte",
                        config.byte_table,
                        v as usize,
                        || Value::known(Fp::from(v)),
                    )?;
                }
                Ok(())
            },
        )?;
        let values: Vec<u64> = if self.values.len() == 8 {
            self.values.clone()
        } else {
            vec![0; 8]
        };
        let asg = SortNCircuit::new(values).synthesize(clone_config(&config.model));
        let out_cells: Vec<AssignedCell<Fp, Fp>> = layouter.assign_region(
            || "sort",
            |mut region| {
                for (s, row) in config.model.selector_rows.iter().enumerate() {
                    config.selectors[s].enable(&mut region, *row)?;
                }
                let mut in_cells: Vec<AssignedCell<Fp, Fp>> = Vec::new();
                for ic in asg.inst_copies.iter().filter(|ic| ic.inst_row < 8) {
                    in_cells.push(region.assign_advice_from_instance(
                        || format!("instance({})", ic.inst_row),
                        config.instance,
                        ic.inst_row,
                        config.advice[ic.col],
                        ic.row,
                    )?);
                }
                let mut outs: Vec<AssignedCell<Fp, Fp>> = Vec::new();
                for cc in asg.copies.iter() {
                    outs.push(in_cells[cc.src_col].copy_advice(
                        || format!("sort out[{}]", cc.dst_col),
                        &mut region,
                        config.advice[cc.dst_col],
                        cc.dst_row,
                    )?);
                }
                for row in 2..NUM_ROWS - 1 {
                    for col in 0..9 {
                        region.assign_advice(
                            || format!("cmp({},{})", col, row),
                            config.advice[col],
                            row,
                            || Value::known(Fp::from(asg.cells[col * NUM_ROWS + row])),
                        )?;
                    }
                }
                Ok(outs)
            },
        )?;
        for ic in asg.inst_copies.iter().filter(|ic| ic.inst_row >= 8) {
            layouter.constrain_instance(
                out_cells[ic.inst_row - 8].cell(),
                config.instance,
                ic.inst_row,
            )?;
        }
        Ok(())
    }
}

fn instance_for(values: &[u64]) -> Vec<Fp> {
    let asg = SortNCircuit::new(values.to_vec()).synthesize(SortNCircuit::configure());
    asg.instance.iter().map(|v| Fp::from(*v)).collect()
}

fn prove(values: &[u64], instance: Vec<Fp>) -> Result<(), String> {
    let circuit = TestCircuit { values: values.to_vec() };
    let prover = MockProver::run(9, &circuit, vec![instance]).expect("mock prover should run");
    prover.verify().map_err(|e| format!("{:#?}", e))
}

#[test]
fn sorted_proof_verifies() {
    let values = [5u64, 3, 8, 1, 9, 2, 7, 4];
    let instance = instance_for(&values);
    let expected: Vec<Fp> = [5u64, 3, 8, 1, 9, 2, 7, 4, 1, 2, 3, 4, 5, 7, 8, 9]
        .iter()
        .map(|v| Fp::from(*v))
        .collect();
    assert_eq!(instance, expected);
    if let Err(e) = prove(&values, instance) {
        panic!("verification failed: {}", e);
    }
}

#[test]
fn proof_verifies_for_any_input_order() {
    let orders: [[u64; 8]; 3] = [
        [1, 2, 3, 4, 5, 7, 8, 9],
        [9, 8, 7, 5, 4, 3, 2, 1],
        [4, 9, 1, 7, 2, 8, 3, 5],
    ];
    for values in orders {
        let instance = instance_for(&values);
        assert!(prove(&values, instance).is_ok(), "order {:?}", values);
    }
}

#[test]
fn mutated_claimed_output_fails() {
    let values = [5u64, 3, 8, 1, 9, 2, 7, 4];
    for pos in 8..16 {
        let mut instance = instance_for(&values);
        instance[pos] += Fp::one();
        assert!(prove(&values, instance).is_err(), "mutation at {}", pos);
    }
}

#[test]
fn duplicate_values_never_verify() {
    let values = [5u64, 3, 8, 1, 9, 2, 7, 3];
    let instance = instance_for(&values);
    assert!(prove(&values, instance).is_err());
}
