//! The names of Stan's built-in functions: scalar math, linear algebra, the
//! differential and algebraic equation solvers and the common distribution
//! families with their suffixes.
//!
//! The list is written by hand. It is neither generated from Stan's own
//! function table nor checked against it, so a function may be missing here,
//! and a call of it is then left without a class.

use crate::text::{is_ascii_whitespace, is_space_byte, matches_at, occurs_at};
use vstd::prelude::*;
use vstd::string::*;
use vstd::utf8::*;

verus! {

/// The names, sorted and separated by whitespace.
pub const STAN_BUILTINS: &'static str = "
Phi Phi_approx
abs acos acosh add_diag algebra_solver algebra_solver_newton append_array append_col append_row
arg asin asinh atan atan2 atanh
bernoulli_cdf bernoulli_lccdf bernoulli_lcdf bernoulli_logit_glm_lpmf bernoulli_logit_glm_rng
bernoulli_logit_lpmf bernoulli_logit_rng bernoulli_lpmf bernoulli_rng bessel_first_kind
bessel_second_kind beta beta_binomial_cdf beta_binomial_lccdf beta_binomial_lcdf
beta_binomial_lpmf beta_binomial_rng beta_cdf beta_lccdf beta_lcdf beta_lpdf
beta_neg_binomial_cdf beta_neg_binomial_lccdf beta_neg_binomial_lcdf beta_neg_binomial_lpmf
beta_neg_binomial_rng beta_proportion_cdf beta_proportion_lccdf beta_proportion_lcdf
beta_proportion_lpdf beta_proportion_rng beta_rng binary_log_loss binomial_cdf binomial_lccdf
binomial_lcdf binomial_logit_glm_lpmf binomial_logit_lpmf binomial_logit_rng binomial_lpmf
binomial_rng block
categorical_logit_glm_lpmf categorical_logit_lpmf categorical_logit_rng categorical_lpmf
categorical_rng cauchy_cdf cauchy_lccdf cauchy_lcdf cauchy_lpdf cauchy_rng cbrt ceil
chi_square_cdf chi_square_lccdf chi_square_lcdf chi_square_lpdf chi_square_rng chol2inv
cholesky_decompose choose col cols columns_dot_product columns_dot_self conj cos cosh
cov_exp_quad crossprod csr_extract_u csr_extract_v csr_extract_w csr_matrix_times_vector
csr_to_dense_matrix cumulative_sum
dae dae_tol determinant diag_matrix diag_post_multiply diag_pre_multiply diagonal digamma dims
dirichlet_lpdf dirichlet_multinomial_lpmf dirichlet_multinomial_rng dirichlet_rng
discrete_range_cdf discrete_range_lccdf discrete_range_lcdf discrete_range_lpmf
discrete_range_rng distance dot_product dot_self double_exponential_cdf double_exponential_lccdf
double_exponential_lcdf double_exponential_lpdf double_exponential_rng
e eigendecompose eigendecompose_sym eigenvalues eigenvalues_sym eigenvectors eigenvectors_sym
erf erfc exp exp2 exp_mod_normal_cdf exp_mod_normal_lccdf exp_mod_normal_lcdf
exp_mod_normal_lpdf exp_mod_normal_rng expm1 exponential_cdf exponential_lccdf exponential_lcdf
exponential_lpdf exponential_rng
fabs falling_factorial fatal_error fdim fft fft2 floor fma fmax fmin fmod frechet_cdf
frechet_lccdf frechet_lcdf frechet_lpdf frechet_rng
gamma_cdf gamma_lccdf gamma_lcdf gamma_lpdf gamma_p gamma_q gamma_rng gaussian_dlm_obs_lpdf
generalized_inverse get_imag get_lp get_real gp_dot_prod_cov gp_exp_quad_cov gp_exponential_cov
gp_matern32_cov gp_matern52_cov gp_periodic_cov gumbel_cdf gumbel_lccdf gumbel_lcdf gumbel_lpdf
gumbel_rng
head hmm_hidden_state_prob hmm_latent_rng hmm_marginal hypergeometric_lpmf hypergeometric_rng
hypot
identity_matrix inc_beta int_step integrate_1d integrate_ode integrate_ode_adams
integrate_ode_bdf integrate_ode_rk45 inv inv_Phi inv_chi_square_cdf inv_chi_square_lccdf
inv_chi_square_lcdf inv_chi_square_lpdf inv_chi_square_rng inv_cloglog inv_erfc inv_fft inv_fft2
inv_gamma_cdf inv_gamma_lccdf inv_gamma_lcdf inv_gamma_lpdf inv_gamma_rng inv_logit inv_sqrt
inv_square inv_wishart_cholesky_lpdf inv_wishart_cholesky_rng inv_wishart_lpdf inv_wishart_rng
inverse inverse_spd is_inf is_nan
lambert_w0 lambert_wm1 lbeta lchoose ldexp lgamma linspaced_array linspaced_int_array
linspaced_row_vector linspaced_vector lkj_corr_cholesky_lpdf lkj_corr_cholesky_rng lkj_corr_lpdf
lkj_corr_rng lmgamma lmultiply log log10 log1m log1m_exp log1m_inv_logit log1p log1p_exp log2
log_determinant log_diff_exp log_falling_factorial log_inv_logit log_inv_logit_diff log_mix
log_modified_bessel_first_kind log_rising_factorial log_softmax log_sum_exp logistic_cdf
logistic_lccdf logistic_lcdf logistic_lpdf logistic_rng logit loglogistic_cdf loglogistic_lccdf
loglogistic_lcdf loglogistic_lpdf loglogistic_rng lognormal_cdf lognormal_lccdf lognormal_lcdf
lognormal_lpdf lognormal_rng
machine_precision map_rect matrix_exp matrix_exp_multiply matrix_power max mdivide_left_spd
mdivide_left_tri_low mdivide_right_spd mdivide_right_tri_low mean min modified_bessel_first_kind
modified_bessel_second_kind multi_gp_cholesky_lpdf multi_gp_lpdf multi_normal_cholesky_lpdf
multi_normal_cholesky_rng multi_normal_lpdf multi_normal_prec_lpdf multi_normal_rng
multi_student_t_cholesky_lpdf multi_student_t_cholesky_rng multi_student_t_lpdf
multi_student_t_rng multinomial_logit_lpmf multinomial_logit_rng multinomial_lpmf
multinomial_rng multiply_log multiply_lower_tri_self_transpose
neg_binomial_2_cdf neg_binomial_2_lccdf neg_binomial_2_lcdf neg_binomial_2_log_glm_lpmf
neg_binomial_2_log_lpmf neg_binomial_2_log_rng neg_binomial_2_lpmf neg_binomial_2_rng
neg_binomial_cdf neg_binomial_lccdf neg_binomial_lcdf neg_binomial_lpmf neg_binomial_rng
negative_infinity norm1 norm2 normal_cdf normal_id_glm_lpdf normal_lccdf normal_lcdf normal_lpdf
normal_rng not_a_number num_elements
ode_adams ode_adams_tol ode_adjoint_tol_ctl ode_bdf ode_bdf_tol ode_ckrk ode_ckrk_tol ode_rk45
ode_rk45_tol one_hot_array one_hot_int_array one_hot_row_vector one_hot_vector ones_array
ones_int_array ones_row_vector ones_vector ordered_logistic_glm_lpmf ordered_logistic_lpmf
ordered_logistic_rng ordered_probit_lpmf ordered_probit_rng owens_t
pareto_cdf pareto_lccdf pareto_lcdf pareto_lpdf pareto_rng pareto_type_2_cdf pareto_type_2_lccdf
pareto_type_2_lcdf pareto_type_2_lpdf pareto_type_2_rng pi poisson_binomial_cdf
poisson_binomial_lccdf poisson_binomial_lcdf poisson_binomial_lpmf poisson_binomial_rng
poisson_cdf poisson_lccdf poisson_lcdf poisson_log_glm_lpmf poisson_log_lpmf poisson_log_rng
poisson_lpmf poisson_rng polar positive_infinity pow print prod proj
qr qr_Q qr_R qr_thin qr_thin_Q qr_thin_R quad_form quad_form_diag quad_form_sym quantile
rank rayleigh_cdf rayleigh_lccdf rayleigh_lcdf rayleigh_lpdf rayleigh_rng reduce_sum
reduce_sum_static reject rep_array rep_matrix rep_row_vector rep_vector reverse rising_factorial
round row rows rows_dot_product rows_dot_self
scale_matrix_exp_multiply scaled_inv_chi_square_cdf scaled_inv_chi_square_lccdf
scaled_inv_chi_square_lcdf scaled_inv_chi_square_lpdf scaled_inv_chi_square_rng sd segment sin
singular_values sinh size skew_double_exponential_cdf skew_double_exponential_lccdf
skew_double_exponential_lcdf skew_double_exponential_lpdf skew_double_exponential_rng
skew_normal_cdf skew_normal_lccdf skew_normal_lcdf skew_normal_lpdf skew_normal_rng softmax
solve_newton solve_newton_tol solve_powell solve_powell_tol sort_asc sort_desc sort_indices_asc
sort_indices_desc sqrt sqrt2 square squared_distance std_normal_cdf std_normal_lccdf
std_normal_lcdf std_normal_lpdf std_normal_rng step student_t_cdf student_t_lccdf student_t_lcdf
student_t_lpdf student_t_rng sub_col sub_row sum svd svd_U svd_V symmetrize_from_lower_tri
tail tan tanh target tcrossprod tgamma to_array_1d to_array_2d to_complex to_int to_matrix
to_row_vector to_vector trace trace_gen_quad_form trace_quad_form trigamma trunc
uniform_cdf uniform_lccdf uniform_lcdf uniform_lpdf uniform_rng uniform_simplex
variance von_mises_cdf von_mises_lccdf von_mises_lcdf von_mises_lpdf von_mises_rng
weibull_cdf weibull_lccdf weibull_lcdf weibull_lpdf weibull_rng wiener_lpdf
wishart_cholesky_lpdf wishart_cholesky_rng wishart_lpdf wishart_rng
zeros_array zeros_int_array zeros_row_vector zeros_vector
";

/// The byte string `word` stands in `list` at offset `i` between whitespace.
pub open spec fn listed_at(list: Seq<u8>, word: Seq<u8>, i: int) -> bool {
    &&& occurs_at(list, word, i)
    &&& i == 0 || is_space_byte(list[i - 1])
    &&& i + word.len() == list.len() || is_space_byte(list[i + word.len()])
}

/// The byte string `word` is one of the words that whitespace separates in
/// `list`.
pub open spec fn is_listed(list: Seq<u8>, word: Seq<u8>) -> bool {
    &&& word.len() > 0
    &&& forall|k: int| 0 <= k < word.len() ==> !is_space_byte(#[trigger] word[k])
    &&& exists|i: int| #[trigger] listed_at(list, word, i)
}

/// `name` is the name of a built-in function.
pub open spec fn builtin(name: Seq<char>) -> bool {
    is_listed(encode_utf8(STAN_BUILTINS@), encode_utf8(name))
}

fn is_word(word: &[u8]) -> (r: bool)
    ensures
        r == (word@.len() > 0 && forall|k: int|
            0 <= k < word@.len() ==> !is_space_byte(#[trigger] word@[k])),
{
    let mut k: usize = 0;
    while k < word.len()
        invariant
            k <= word@.len(),
            forall|j: int| 0 <= j < k ==> !is_space_byte(#[trigger] word@[j]),
        decreases word.len() - k,
    {
        if is_ascii_whitespace(word[k]) {
            return false;
        }
        k += 1;
    }
    word.len() > 0
}

/// Whether `word` is one of the words of `list`.
pub fn is_in_list(list: &str, word: &str) -> (r: bool)
    ensures
        r == is_listed(encode_utf8(list@), encode_utf8(word@)),
{
    let list_bytes = list.as_bytes();
    let word_bytes = word.as_bytes();
    if !is_word(word_bytes) {
        return false;
    }
    let length = list_bytes.len();
    let mut i: usize = 0;
    while i < length
        invariant
            list_bytes@ == encode_utf8(list@),
            word_bytes@ == encode_utf8(word@),
            word_bytes@.len() > 0,
            forall|k: int| 0 <= k < word_bytes@.len() ==> !is_space_byte(#[trigger] word_bytes@[k]),
            length == list_bytes@.len(),
            i <= length,
            forall|j: int| 0 <= j < i ==> !#[trigger] listed_at(list_bytes@, word_bytes@, j),
        decreases length - i,
    {
        if i == 0 || is_ascii_whitespace(list_bytes[i - 1]) {
            if matches_at(list_bytes, i, word_bytes) {
                let end = i + word_bytes.len();
                if end == length || is_ascii_whitespace(list_bytes[end]) {
                    assert(listed_at(list_bytes@, word_bytes@, i as int));
                    return true;
                }
            }
        }
        i += 1;
    }
    false
}

/// Whether `name` is the name of a built-in function.
pub fn is_builtin(name: &str) -> (r: bool)
    ensures
        r == builtin(name@),
{
    is_in_list(STAN_BUILTINS, name)
}

/// Every word of a list is listed: a word is if the list is made of a part that
/// is empty or ends in whitespace, the word, and a part that is empty or starts
/// with whitespace.
pub proof fn law_listed_words(before: Seq<u8>, word: Seq<u8>, behind: Seq<u8>)
    requires
        word.len() > 0,
        forall|k: int| 0 <= k < word.len() ==> !is_space_byte(#[trigger] word[k]),
        before.len() > 0 ==> is_space_byte(before.last()),
        behind.len() > 0 ==> is_space_byte(behind[0]),
    ensures
        is_listed(before + word + behind, word),
{
    let list = before + word + behind;
    let i = before.len() as int;
    assert(list.subrange(i, i + word.len()) =~= word);
    assert(listed_at(list, word, i));
}

/// A word that is listed stands in the list between whitespace, and has none
/// of its own.
pub proof fn law_only_words_are_listed(list: Seq<u8>, word: Seq<u8>)
    requires
        is_listed(list, word),
    ensures
        word.len() > 0,
        forall|k: int| 0 <= k < word.len() ==> !is_space_byte(#[trigger] word[k]),
        exists|before: Seq<u8>, behind: Seq<u8>|
            {
                &&& list == #[trigger] (before + word + behind)
                &&& before.len() > 0 ==> is_space_byte(before.last())
                &&& behind.len() > 0 ==> is_space_byte(behind[0])
            },
{
    let i = choose|i: int| #[trigger] listed_at(list, word, i);
    let before = list.subrange(0, i);
    let behind = list.subrange(i + word.len(), list.len() as int);
    assert(list =~= before + word + behind);
}

/// The built-in functions are the words of the list, every one of them and no
/// others.
pub proof fn law_built_in_functions(name: Seq<char>)
    ensures
        builtin(name) <==> {
            let list = encode_utf8(STAN_BUILTINS@);
            let word = encode_utf8(name);
            &&& word.len() > 0
            &&& forall|k: int| 0 <= k < word.len() ==> !is_space_byte(#[trigger] word[k])
            &&& exists|before: Seq<u8>, behind: Seq<u8>|
                {
                    &&& list == #[trigger] (before + word + behind)
                    &&& before.len() > 0 ==> is_space_byte(before.last())
                    &&& behind.len() > 0 ==> is_space_byte(behind[0])
                }
        },
{
    let list = encode_utf8(STAN_BUILTINS@);
    let word = encode_utf8(name);
    if builtin(name) {
        law_only_words_are_listed(list, word);
    }
    if word.len() > 0 && (forall|k: int|
        0 <= k < word.len() ==> !is_space_byte(#[trigger] word[k])) && exists|
        before: Seq<u8>,
        behind: Seq<u8>,
    |
        {
            &&& list == #[trigger] (before + word + behind)
            &&& before.len() > 0 ==> is_space_byte(before.last())
            &&& behind.len() > 0 ==> is_space_byte(behind[0])
        } {
        let (before, behind) = choose|before: Seq<u8>, behind: Seq<u8>|
            {
                &&& list == #[trigger] (before + word + behind)
                &&& before.len() > 0 ==> is_space_byte(before.last())
                &&& behind.len() > 0 ==> is_space_byte(behind[0])
            };
        law_listed_words(before, word, behind);
    }
}

} // verus!
